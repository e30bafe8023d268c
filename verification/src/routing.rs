//! Destination-based dispatch of tunneled packets.
//!
//! The router owns the address allocator and a table from virtual IPv4
//! address to a sink handle. A sink handle is a number standing for one
//! write endpoint (a client session or the local TUN device); the driver
//! around the router keeps the actual endpoints and performs the writes the
//! router decides on. Leases tie an allocated address to its route: binding
//! a lease installs the route, releasing it removes the route and frees the
//! address.

use vstd::prelude::*;
use crate::ip_manager::{IpManager, IpSpace};

verus! {

/// The destination a packet's bytes parse to.
#[derive(Clone, Copy, Debug, PartialEq, Eq, Structural)]
pub enum WireDestination {
    /// Not parseable as an IP packet.
    NotIp,
    /// An IP packet without an IPv4 destination.
    NotIpv4,
    /// An IPv4 packet destined to the carried address.
    Ipv4(u32),
}

/// The destination encoded in a packet: a function of the bytes alone.
pub uninterp spec fn wire_destination(p: Seq<u8>) -> WireDestination;

/// Relies on etherparse::IpSlice::from_slice and Ipv4HeaderSlice::destination:
/// parsing is deterministic in the packet bytes, an unparseable slice is not
/// IP, and a parsed IPv4 packet yields the destination field of its header.
#[verifier::external_body]
fn parse_destination(packet: &[u8]) -> (r: WireDestination)
    ensures
        r == wire_destination(packet@),
{
    match etherparse::IpSlice::from_slice(packet) {
        Err(_) => WireDestination::NotIp,
        Ok(ip) => match ip.ipv4() {
            Some(v4) => {
                let d = v4.header().destination();
                WireDestination::Ipv4(u32::from_be_bytes(d))
            },
            None => WireDestination::NotIpv4,
        },
    }
}

/// What the router decides about one packet seen on its local side.
#[derive(Clone, Copy, Debug, PartialEq, Eq, Structural)]
pub enum RoutingResult {
    /// Write the packet to this sink.
    Deliver(u64),
    /// Not an IP packet.
    NotIp,
    /// No IPv4 destination.
    NoIpv4,
    /// An IPv4 destination with no installed route.
    NoRoute,
}

/// Where a packet arriving from a client session goes.
#[derive(Clone, Copy, Debug, PartialEq, Eq, Structural)]
pub enum Dispatch {
    /// Write the packet to this client sink.
    ToSink(u64),
    /// Write the packet to the local TUN sink.
    ToTun,
}

/// The routing decision for a destination under a route table.
pub open spec fn local_outcome(routes: Map<u32, u64>, dest: WireDestination) -> RoutingResult {
    match dest {
        WireDestination::NotIp => RoutingResult::NotIp,
        WireDestination::NotIpv4 => RoutingResult::NoIpv4,
        WireDestination::Ipv4(d) => if routes.contains_key(d) {
            RoutingResult::Deliver(routes[d])
        } else {
            RoutingResult::NoRoute
        },
    }
}

/// The dispatch for a packet from a client: to the routed sink when one is
/// installed, otherwise out through the local TUN.
pub open spec fn dispatch_of(routes: Map<u32, u64>, dest: WireDestination) -> Dispatch {
    match local_outcome(routes, dest) {
        RoutingResult::Deliver(sink) => Dispatch::ToSink(sink),
        _ => Dispatch::ToTun,
    }
}

/// The route table a sequence of entries stands for.
spec fn map_of_pairs(s: Seq<(u32, u64)>) -> Map<u32, u64>
    decreases s.len(),
{
    if s.len() == 0 {
        Map::empty()
    } else {
        map_of_pairs(s.drop_last()).insert(s.last().0, s.last().1)
    }
}

/// Entry keys are pairwise distinct.
spec fn distinct_keys(s: Seq<(u32, u64)>) -> bool {
    forall|i: int, j: int| 0 <= i < j < s.len() ==> s[i].0 != s[j].0
}

proof fn lemma_map_of_pairs_contains(s: Seq<(u32, u64)>, k: u32)
    ensures
        map_of_pairs(s).contains_key(k) <==> exists|i: int| 0 <= i < s.len() && s[i].0 == k,
    decreases s.len(),
{
    if s.len() > 0 {
        lemma_map_of_pairs_contains(s.drop_last(), k);
        if s.last().0 == k {
            assert(s[s.len() - 1].0 == k);
        } else if map_of_pairs(s).contains_key(k) {
            let i = choose|i: int| 0 <= i < s.drop_last().len() && s.drop_last()[i].0 == k;
            assert(s[i].0 == k);
        } else if exists|i: int| 0 <= i < s.len() && s[i].0 == k {
            let i = choose|i: int| 0 <= i < s.len() && s[i].0 == k;
            assert(s.drop_last()[i].0 == k);
        }
    }
}

proof fn lemma_map_of_pairs_at(s: Seq<(u32, u64)>, i: int)
    requires
        distinct_keys(s),
        0 <= i < s.len(),
    ensures
        map_of_pairs(s).contains_key(s[i].0),
        map_of_pairs(s)[s[i].0] == s[i].1,
    decreases s.len(),
{
    if i == s.len() - 1 {
    } else {
        assert(distinct_keys(s.drop_last()));
        lemma_map_of_pairs_at(s.drop_last(), i);
        assert(s.drop_last()[i] == s[i]);
        assert(s[i].0 != s.last().0);
    }
}

proof fn lemma_map_of_pairs_push(s: Seq<(u32, u64)>, k: u32, v: u64)
    ensures
        map_of_pairs(s.push((k, v))) == map_of_pairs(s).insert(k, v),
{
    assert(s.push((k, v)).drop_last() =~= s);
    assert(s.push((k, v)).last() == (k, v));
}

proof fn lemma_distinct_keys_remove(s: Seq<(u32, u64)>, i: int)
    requires
        distinct_keys(s),
        0 <= i < s.len(),
    ensures
        distinct_keys(s.remove(i)),
{
    assert forall|a: int, b: int| 0 <= a < b < s.remove(i).len() implies s.remove(i)[a].0
        != s.remove(i)[b].0 by {
        assert(s.remove(i)[a] == (if a < i {
            s[a]
        } else {
            s[a + 1]
        }));
        assert(s.remove(i)[b] == (if b < i {
            s[b]
        } else {
            s[b + 1]
        }));
    }
}

proof fn lemma_map_of_pairs_remove(s: Seq<(u32, u64)>, i: int)
    requires
        distinct_keys(s),
        0 <= i < s.len(),
    ensures
        map_of_pairs(s.remove(i)) == map_of_pairs(s).remove(s[i].0),
    decreases s.len(),
{
    let k = s[i].0;
    if i == s.len() - 1 {
        assert(s.remove(i) =~= s.drop_last());
        assert(map_of_pairs(s) == map_of_pairs(s.drop_last()).insert(k, s[i].1));
        lemma_map_of_pairs_contains(s.drop_last(), k);
        assert forall|j: int| 0 <= j < s.drop_last().len() implies s.drop_last()[j].0 != k by {
            assert(s[j].0 != s[i].0);
        }
        assert(!map_of_pairs(s.drop_last()).contains_key(k));
        assert(map_of_pairs(s.drop_last()).insert(k, s[i].1).remove(k) =~= map_of_pairs(
            s.drop_last(),
        ));
    } else {
        assert(distinct_keys(s.drop_last()));
        lemma_map_of_pairs_remove(s.drop_last(), i);
        assert(s.remove(i).drop_last() =~= s.drop_last().remove(i));
        assert(s.remove(i).last() == s.last());
        assert(s.drop_last()[i] == s[i]);
        assert(map_of_pairs(s.remove(i)) == map_of_pairs(s.drop_last().remove(i)).insert(
            s.last().0,
            s.last().1,
        ));
        assert(s[i].0 != s.last().0);
        assert(map_of_pairs(s.drop_last()).remove(k).insert(s.last().0, s.last().1)
            =~= map_of_pairs(s.drop_last()).insert(s.last().0, s.last().1).remove(k));
    }
}

/// Subnet parameters the router is built with.
pub struct RouterConfig {
    /// The server's own virtual address, the gateway of the subnet.
    pub address: u32,
    /// The netmask of the subnet.
    pub netmask: u32,
}

/// Scoped ownership of an allocated virtual address.
pub struct IpLease {
    addr: u32,
}

impl IpLease {
    /// The leased address.
    pub closed spec fn spec_address(&self) -> u32 {
        self.addr
    }

    /// The leased address.
    pub fn get_address(&self) -> (r: u32)
        ensures
            r == self.spec_address(),
    {
        self.addr
    }

    /// Installs `sink` as the route of the leased address, replacing any
    /// stale entry.
    pub fn set_route(&self, router: &mut Router, sink: u64)
        requires
            old(router).wf(),
        ensures
            final(router).wf(),
            final(router).routes_map() == old(router).routes_map().insert(
                self.spec_address(),
                sink,
            ),
            final(router).ip_space() == old(router).ip_space(),
    {
        router.install_route(self.addr, sink);
    }
}

/// Owner of the allocator and the route table; decides where each packet
/// goes.
pub struct Router {
    ip_manager: IpManager,
    routes: Vec<(u32, u64)>,
}

impl Router {
    /// The allocator's state.
    pub closed spec fn ip_space(&self) -> IpSpace {
        self.ip_manager@
    }

    /// The installed routes.
    pub closed spec fn routes_map(&self) -> Map<u32, u64> {
        map_of_pairs(self.routes@)
    }

    /// Well-formed: the allocator is well-formed and route keys are unique.
    pub closed spec fn wf(&self) -> bool {
        &&& self.ip_manager.wf()
        &&& distinct_keys(self.routes@)
    }

    /// Builds a router over the subnet, with the gateway address blocked in
    /// the allocator and no route installed.
    pub fn new(config: RouterConfig) -> (r: Router)
        requires
            config.netmask != 0,
        ensures
            r.wf(),
            r.ip_space().netmask == config.netmask,
            r.ip_space().subnet == config.address & config.netmask,
            r.ip_space().blocked == Set::<u32>::empty().insert(
                r.ip_space().host_index(config.address),
            ),
            r.routes_map() == Map::<u32, u64>::empty(),
    {
        let mut ip_manager = IpManager::new(config.address, config.netmask);
        ip_manager.block(config.address);
        let r = Router { ip_manager, routes: Vec::new() };
        proof {
            assert(r.routes@.len() == 0);
            assert(r.routes_map() =~= Map::<u32, u64>::empty());
        }
        r
    }

    /// Looks up the sink routed for a destination address.
    fn lookup_route(&self, dst: u32) -> (r: Option<u64>)
        requires
            self.wf(),
        ensures
            r == (if self.routes_map().contains_key(dst) {
                Some(self.routes_map()[dst])
            } else {
                Option::<u64>::None
            }),
    {
        let mut i: usize = 0;
        while i < self.routes.len()
            invariant
                self.wf(),
                i <= self.routes@.len(),
                forall|m: int| 0 <= m < i ==> self.routes@[m].0 != dst,
            decreases self.routes@.len() - i,
        {
            if self.routes[i].0 == dst {
                proof {
                    lemma_map_of_pairs_at(self.routes@, i as int);
                }
                return Some(self.routes[i].1);
            }
            i = i + 1;
        }
        proof {
            lemma_map_of_pairs_contains(self.routes@, dst);
        }
        None
    }

    /// Decides what to do with a packet seen on the local side: deliver to
    /// the routed sink, or report why there is none.
    pub fn route_local(&self, packet: &[u8]) -> (r: RoutingResult)
        requires
            self.wf(),
        ensures
            r == local_outcome(self.routes_map(), wire_destination(packet@)),
    {
        match parse_destination(packet) {
            WireDestination::NotIp => RoutingResult::NotIp,
            WireDestination::NotIpv4 => RoutingResult::NoIpv4,
            WireDestination::Ipv4(dst) => match self.lookup_route(dst) {
                Some(sink) => RoutingResult::Deliver(sink),
                None => RoutingResult::NoRoute,
            },
        }
    }

    /// Decides where a packet arriving from a client goes: to the routed
    /// sink when a route is installed, otherwise out through the local TUN.
    pub fn route_packet(&self, packet: &[u8]) -> (d: Dispatch)
        requires
            self.wf(),
        ensures
            d == dispatch_of(self.routes_map(), wire_destination(packet@)),
    {
        match self.route_local(packet) {
            RoutingResult::Deliver(sink) => Dispatch::ToSink(sink),
            _ => Dispatch::ToTun,
        }
    }

    /// Takes the smallest free address of the subnet, blocks it, and hands
    /// out a lease on it; `None` when the space is exhausted.
    pub fn get_ip(&mut self) -> (r: Option<IpLease>)
        requires
            old(self).wf(),
        ensures
            final(self).wf(),
            final(self).routes_map() == old(self).routes_map(),
            r is Some <==> old(self).ip_space().free_addr() is Some,
            match r {
                Some(lease) => {
                    &&& Some(lease.spec_address()) == old(self).ip_space().free_addr()
                    &&& old(self).ip_space().in_subnet(lease.spec_address())
                    &&& final(self).ip_space().blocked == old(self).ip_space().blocked.insert(
                        old(self).ip_space().host_index(lease.spec_address()),
                    )
                    &&& final(self).ip_space().netmask == old(self).ip_space().netmask
                    &&& final(self).ip_space().subnet == old(self).ip_space().subnet
                    &&& final(self).ip_space().subnet_size == old(self).ip_space().subnet_size
                },
                None => final(self).ip_space() == old(self).ip_space(),
            },
    {
        match self.ip_manager.get_free() {
            Some(addr) => {
                proof {
                    crate::ip_manager::lemma_addr_at_index(
                        self.ip_manager@,
                        self.ip_manager@.min_free,
                    );
                }
                self.ip_manager.block(addr);
                Some(IpLease { addr })
            },
            None => None,
        }
    }

    /// Installs or replaces the route of `addr`.
    fn install_route(&mut self, addr: u32, sink: u64)
        requires
            old(self).wf(),
        ensures
            final(self).wf(),
            final(self).routes_map() == old(self).routes_map().insert(addr, sink),
            final(self).ip_space() == old(self).ip_space(),
    {
        let removed = self.remove_route_entry(addr);
        let ghost s_mid = self.routes@;
        proof {
            lemma_map_of_pairs_contains(s_mid, addr);
            assert forall|j: int| 0 <= j < s_mid.len() implies s_mid[j].0 != addr by {
                if s_mid[j].0 == addr {
                    assert(exists|i: int| 0 <= i < s_mid.len() && s_mid[i].0 == addr);
                }
            }
        }
        self.routes.push((addr, sink));
        proof {
            let s1 = self.routes@;
            assert(s1 == s_mid.push((addr, sink)));
            lemma_map_of_pairs_push(s_mid, addr, sink);
            assert forall|a: int, b: int| 0 <= a < b < s1.len() implies s1[a].0 != s1[b].0 by {
                if b == s1.len() - 1 {
                    assert(s1[a] == s_mid[a]);
                } else {
                    assert(s1[a] == s_mid[a] && s1[b] == s_mid[b]);
                }
            }
            assert(old(self).routes_map().remove(addr).insert(addr, sink) =~= old(
                self,
            ).routes_map().insert(addr, sink));
        }
    }

    /// Removes the route of `addr`, handing back the sink that was installed
    /// so the caller can close it.
    fn remove_route_entry(&mut self, addr: u32) -> (removed: Option<u64>)
        requires
            old(self).wf(),
        ensures
            final(self).wf(),
            final(self).routes_map() == old(self).routes_map().remove(addr),
            removed == (if old(self).routes_map().contains_key(addr) {
                Some(old(self).routes_map()[addr])
            } else {
                Option::<u64>::None
            }),
            final(self).ip_space() == old(self).ip_space(),
    {
        let mut i: usize = 0;
        while i < self.routes.len()
            invariant
                *self == *old(self),
                self.wf(),
                i <= self.routes@.len(),
                forall|m: int| 0 <= m < i ==> self.routes@[m].0 != addr,
            decreases self.routes@.len() - i,
        {
            if self.routes[i].0 == addr {
                proof {
                    lemma_map_of_pairs_at(self.routes@, i as int);
                    lemma_map_of_pairs_remove(self.routes@, i as int);
                    lemma_distinct_keys_remove(self.routes@, i as int);
                }
                let sink = self.routes[i].1;
                self.routes.remove(i);
                return Some(sink);
            }
            i = i + 1;
        }
        proof {
            lemma_map_of_pairs_contains(self.routes@, addr);
            assert(!self.routes_map().contains_key(addr));
            assert(self.routes_map().remove(addr) =~= self.routes_map());
        }
        None
    }

    /// Gives a lease back: removes its route (handing back the sink that was
    /// installed, if any, so the caller can close it) and releases the
    /// address in the allocator.
    pub fn release_lease(&mut self, lease: IpLease) -> (removed: Option<u64>)
        requires
            old(self).wf(),
        ensures
            final(self).wf(),
            final(self).routes_map() == old(self).routes_map().remove(lease.spec_address()),
            removed == (if old(self).routes_map().contains_key(lease.spec_address()) {
                Some(old(self).routes_map()[lease.spec_address()])
            } else {
                Option::<u64>::None
            }),
            final(self).ip_space().netmask == old(self).ip_space().netmask,
            final(self).ip_space().subnet == old(self).ip_space().subnet,
            final(self).ip_space().subnet_size == old(self).ip_space().subnet_size,
            old(self).ip_space().in_subnet(lease.spec_address())
                ==> final(self).ip_space().blocked == old(self).ip_space().blocked.remove(
                old(self).ip_space().host_index(lease.spec_address()),
            ),
            !old(self).ip_space().in_subnet(lease.spec_address())
                ==> final(self).ip_space() == old(self).ip_space(),
    {
        let removed = self.remove_route_entry(lease.addr);
        self.ip_manager.release(lease.addr);
        removed
    }
}

/// Route dispatch: under a table that routes `a` to `sink_a` and `b` to
/// `sink_b`, an IPv4 packet destined to `a` is delivered to `sink_a` only;
/// packets that are not IPv4 and IPv4 packets with an unknown destination go
/// out through the local TUN.
pub proof fn lemma_route_dispatch(a: u32, b: u32, sink_a: u64, sink_b: u64, p: Seq<u8>)
    requires
        a != b,
    ensures
        ({
            let routes = Map::<u32, u64>::empty().insert(a, sink_a).insert(b, sink_b);
            &&& wire_destination(p) == WireDestination::Ipv4(a) ==> dispatch_of(
                routes,
                wire_destination(p),
            ) == Dispatch::ToSink(sink_a)
            &&& wire_destination(p) == WireDestination::Ipv4(b) ==> dispatch_of(
                routes,
                wire_destination(p),
            ) == Dispatch::ToSink(sink_b)
            &&& wire_destination(p) == WireDestination::NotIp ==> dispatch_of(
                routes,
                wire_destination(p),
            ) == Dispatch::ToTun
            &&& wire_destination(p) == WireDestination::NotIpv4 ==> dispatch_of(
                routes,
                wire_destination(p),
            ) == Dispatch::ToTun
            &&& forall|d: u32|
                wire_destination(p) == WireDestination::Ipv4(d) && d != a && d != b
                    ==> dispatch_of(routes, wire_destination(p)) == Dispatch::ToTun
        }),
{
}

/// Lease release: once a lease's route is removed and its address released,
/// (a) the route table no longer knows the address, so (c) a packet destined
/// to it is dispatched to the TUN and never again to the old sink, and (b)
/// the host index is free again, so a subsequent allocation may return the
/// same address.
pub proof fn lemma_lease_release(
    routes: Map<u32, u64>,
    space: IpSpace,
    addr: u32,
    p: Seq<u8>,
)
    ensures
        !routes.remove(addr).contains_key(addr),
        wire_destination(p) == WireDestination::Ipv4(addr) ==> dispatch_of(
            routes.remove(addr),
            wire_destination(p),
        ) == Dispatch::ToTun,
        forall|sink: u64|
            wire_destination(p) == WireDestination::Ipv4(addr) ==> local_outcome(
                routes.remove(addr),
                wire_destination(p),
            ) != RoutingResult::Deliver(sink),
        !space.blocked.remove(space.host_index(addr)).contains(space.host_index(addr)),
{
}

} // verus!
