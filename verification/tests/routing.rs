use vpncore::routing::{Dispatch, Router, RouterConfig, RoutingResult};

const GW: u32 = 0x0A000001; // 10.0.0.1
const MASK: u32 = 0xFFFFFF00;

fn router_24() -> Router {
    Router::new(RouterConfig { address: GW, netmask: MASK })
}

/// A minimal well-formed IPv4 header (20 bytes, no payload).
fn ipv4_to(dst: u32) -> Vec<u8> {
    let d = dst.to_be_bytes();
    vec![
        0x45, 0x00, 0x00, 0x14, // version 4, IHL 5, total length 20
        0x00, 0x00, 0x00, 0x00, // identification, flags, fragment offset
        0x40, 0x11, 0x00, 0x00, // TTL 64, protocol UDP, checksum
        10, 0, 0, 9, // source
        d[0], d[1], d[2], d[3], // destination
    ]
}

/// A minimal well-formed IPv6 header (40 bytes, no payload).
fn ipv6_packet() -> Vec<u8> {
    let mut p = vec![0x60, 0, 0, 0, 0, 0, 59, 64];
    p.extend_from_slice(&[0u8; 32]); // source and destination
    p
}

#[test]
fn gateway_is_preblocked() {
    let mut router = router_24();
    let a = router.get_ip().unwrap().get_address();
    assert_eq!(a, 0x0A000000);
    let b = router.get_ip().unwrap().get_address();
    assert_eq!(b, 0x0A000002); // 10.0.0.1 is the gateway and never handed out
}

#[test]
fn dispatch_to_the_right_sink_only() {
    let mut router = router_24();
    let lease_a = router.get_ip().unwrap();
    let lease_b = router.get_ip().unwrap();
    lease_a.set_route(&mut router, 11);
    lease_b.set_route(&mut router, 22);

    assert_eq!(router.route_packet(&ipv4_to(lease_a.get_address())), Dispatch::ToSink(11));
    assert_eq!(router.route_packet(&ipv4_to(lease_b.get_address())), Dispatch::ToSink(22));
}

#[test]
fn unknown_destination_goes_to_tun() {
    let mut router = router_24();
    let lease = router.get_ip().unwrap();
    lease.set_route(&mut router, 11);
    assert_eq!(router.route_packet(&ipv4_to(0x0A000063)), Dispatch::ToTun);
}

#[test]
fn non_ip_goes_to_tun() {
    let router = router_24();
    assert_eq!(router.route_packet(&[0x12, 0x34]), Dispatch::ToTun);
    assert_eq!(router.route_packet(&[]), Dispatch::ToTun);
}

#[test]
fn ipv6_goes_to_tun() {
    let router = router_24();
    assert_eq!(router.route_packet(&ipv6_packet()), Dispatch::ToTun);
}

#[test]
fn route_local_outcomes() {
    let mut router = router_24();
    let lease = router.get_ip().unwrap();
    lease.set_route(&mut router, 7);

    assert_eq!(router.route_local(&ipv4_to(lease.get_address())), RoutingResult::Deliver(7));
    assert_eq!(router.route_local(&ipv4_to(0x0A0000FE)), RoutingResult::NoRoute);
    assert_eq!(router.route_local(&ipv6_packet()), RoutingResult::NoIpv4);
    assert_eq!(router.route_local(&[0xFF]), RoutingResult::NotIp);
}

#[test]
fn rebinding_overwrites_stale_route() {
    let mut router = router_24();
    let lease = router.get_ip().unwrap();
    lease.set_route(&mut router, 7);
    lease.set_route(&mut router, 8);
    assert_eq!(router.route_packet(&ipv4_to(lease.get_address())), Dispatch::ToSink(8));
}

#[test]
fn lease_release_removes_route_and_frees_address() {
    let mut router = router_24();
    let lease_a = router.get_ip().unwrap();
    let lease_b = router.get_ip().unwrap();
    let addr_b = lease_b.get_address();
    lease_a.set_route(&mut router, 11);
    lease_b.set_route(&mut router, 22);

    // dropping the lease hands the installed sink back for closing
    assert_eq!(router.release_lease(lease_b), Some(22));
    // (a) the route is gone: the packet is no longer sent to the old sink
    assert_eq!(router.route_packet(&ipv4_to(addr_b)), Dispatch::ToTun);
    // (b) a subsequent acquire may return the same address
    let lease_c = router.get_ip().unwrap();
    assert_eq!(lease_c.get_address(), addr_b);
    // a new client under the old address is reachable again
    lease_c.set_route(&mut router, 33);
    assert_eq!(router.route_packet(&ipv4_to(addr_b)), Dispatch::ToSink(33));
}

#[test]
fn releasing_an_unbound_lease_returns_no_sink() {
    let mut router = router_24();
    let lease = router.get_ip().unwrap();
    assert_eq!(router.release_lease(lease), None);
}

#[test]
fn exhaustion_refuses_the_fourth_client() {
    // /30: four host indices, the gateway blocked up front
    let mut router = Router::new(RouterConfig { address: 0xC0A80001, netmask: 0xFFFFFFFC });
    let l1 = router.get_ip().unwrap();
    let l2 = router.get_ip().unwrap();
    let l3 = router.get_ip().unwrap();
    assert!(router.get_ip().is_none());
    // the router keeps serving the connected clients
    l1.set_route(&mut router, 1);
    l2.set_route(&mut router, 2);
    l3.set_route(&mut router, 3);
    assert_eq!(router.route_packet(&ipv4_to(l1.get_address())), Dispatch::ToSink(1));
}

#[test]
fn scenario_packet_for_the_gateway_exits_through_tun() {
    // a single client; its packet destined to the server's own address has
    // no client route and leaves through the local TUN sink, bytes intact
    let mut router = router_24();
    let lease = router.get_ip().unwrap();
    lease.set_route(&mut router, 1);

    let mut sender = vpncore::packet_stream::TaggedPacketSender::new();
    let packet = ipv4_to(GW);
    sender.send(&packet).unwrap();
    let wire = sender.take_output();

    let mut receiver = vpncore::packet_stream::TaggedPacketReceiver::new();
    receiver.feed(&wire);
    let received = receiver.try_receive().unwrap();
    assert_eq!(received, packet);
    assert_eq!(router.route_packet(&received), Dispatch::ToTun);
}

#[test]
fn scenario_peer_to_peer_between_two_clients() {
    // a packet from one client to the other's address reaches exactly the
    // other client's sink, unchanged
    let mut router = router_24();
    let lease_a = router.get_ip().unwrap();
    let lease_b = router.get_ip().unwrap();
    lease_a.set_route(&mut router, 11);
    lease_b.set_route(&mut router, 22);

    let mut sender = vpncore::packet_stream::TaggedPacketSender::new();
    let packet = ipv4_to(lease_b.get_address());
    sender.send(&packet).unwrap();
    let wire = sender.take_output();

    let mut receiver = vpncore::packet_stream::TaggedPacketReceiver::new();
    receiver.feed(&wire);
    let received = receiver.try_receive().unwrap();
    assert_eq!(received, packet);
    assert_eq!(router.route_packet(&received), Dispatch::ToSink(22));
}
