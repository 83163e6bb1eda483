use overlay_host::host::{Host, HostState, Outcome};
use overlay_host::node::{ApplicationType, NodeType};
use overlay_host::packet::{
    Ack, FloodRequest, Nack, NackType, Packet, PacketType, SimpleNodeType, SourceRoutingHeader,
};

/// The double chain path between client 40 and server 50.
const PATH: [u8; 6] = [40, 3, 4, 6, 8, 50];

fn trace(ids: &[u8]) -> Vec<(u8, SimpleNodeType)> {
    ids.iter()
        .map(|id| {
            let kind = match *id {
                40 => SimpleNodeType::Client,
                50 => SimpleNodeType::Server,
                _ => SimpleNodeType::Drone,
            };
            (*id, kind)
        })
        .collect()
}

/// A host that has learned the double chain from a flood response.
fn learned_host(id: u8, kind: NodeType) -> Host {
    let mut host = Host::new(id, kind);
    host.start();
    let request = FloodRequest { flood_id: 1, initiator_id: id, path_trace: trace(&PATH) };
    let response = request.generate_response(0);
    host.handle_packet(response);
    host.add_connected_drone(if id == 40 { 3 } else { 8 });
    host.calculate_routes();
    host
}

/// Carries a dispatched packet to the end of its route, as the drones would.
fn arrive(p: Packet) -> Packet {
    let mut p = p;
    p.routing_header.hop_index = p.routing_header.hops.len() - 1;
    p
}

fn client() -> Host {
    learned_host(40, NodeType::Client(ApplicationType::Chat))
}

fn server() -> Host {
    learned_host(50, NodeType::Server(ApplicationType::Chat))
}

#[test]
fn client_server_ping_on_double_chain() {
    let mut c = client();
    let mut s = server();
    assert!(c.can_reach(50));
    assert!(s.can_reach(40));
    let session = c.new_session_id().unwrap();
    assert_eq!(session >> 56, 40);
    let request = b"{\"ping\":1}".to_vec();
    let sent = c.send_message(50, session, &request).unwrap();
    assert_eq!(sent.len(), 1);
    let (next, packet) = sent.into_iter().next().unwrap();
    assert_eq!(next, 3);
    assert_eq!(packet.routing_header.hops, PATH.to_vec());
    assert_eq!(packet.routing_header.hop_index, 1);

    let Outcome { to_send, delivered } = s.handle_packet(arrive(packet));
    assert_eq!(to_send.len(), 1);
    assert_eq!(to_send[0].0, 8);
    assert!(matches!(to_send[0].1.pack_type, PacketType::Ack(Ack { fragment_index: 0 })));
    let d = delivered.unwrap();
    assert_eq!(d.session_id, session);
    assert_eq!(d.bytes, request);
    let mut back: Vec<u8> = PATH.to_vec();
    back.reverse();
    assert_eq!(d.reply_route.hops, back);

    let response = b"{\"pong\":1}".to_vec();
    let replies = s.send_response(40, session, &response).unwrap();
    assert_eq!(replies.len(), 1);
    let (next, reply) = replies.into_iter().next().unwrap();
    assert_eq!(next, 8);
    assert_eq!(reply.routing_header.hops, back);
    let outcome = c.handle_packet(arrive(reply));
    assert_eq!(outcome.delivered.unwrap().bytes, response);
}

#[test]
fn no_route_means_not_sent() {
    let mut c = Host::new(40, NodeType::Client(ApplicationType::Chat));
    assert!(c.send_message(50, 1, &b"x".to_vec()).is_none());
}

#[test]
fn retransmission_on_dropped() {
    let mut c = client();
    let session = c.new_session_id().unwrap();
    let sent = c.send_message(50, session, &vec![b'a'; 300]).unwrap();
    assert_eq!(sent.len(), 3);
    // drone 4 drops fragment 0 and reports back along 4, 3, 40
    let nack = Packet {
        pack_type: PacketType::Nack(Nack { fragment_index: 0, nack_type: NackType::Dropped }),
        routing_header: SourceRoutingHeader { hop_index: 2, hops: vec![4, 3, 40] },
        session_id: session,
    };
    let out = c.handle_packet(nack);
    assert_eq!(out.to_send.len(), 1);
    let (next, p) = &out.to_send[0];
    assert_eq!(*next, 3);
    match &p.pack_type {
        PacketType::MsgFragment(f) => {
            assert_eq!(f.fragment_index, 0);
            assert_eq!(f.length, 128);
        }
        _ => panic!("expected a fragment"),
    }
    // once acknowledged, a fragment is not sent again
    let ack = Packet {
        pack_type: PacketType::Ack(Ack { fragment_index: 0 }),
        routing_header: SourceRoutingHeader { hop_index: 5, hops: vec![50, 8, 6, 4, 3, 40] },
        session_id: session,
    };
    assert!(c.handle_packet(ack).to_send.is_empty());
    let again = Packet {
        pack_type: PacketType::Nack(Nack { fragment_index: 0, nack_type: NackType::Dropped }),
        routing_header: SourceRoutingHeader { hop_index: 2, hops: vec![4, 3, 40] },
        session_id: session,
    };
    assert!(c.handle_packet(again).to_send.is_empty());
}

#[test]
fn error_in_routing_removes_the_link() {
    let mut c = Host::new(40, NodeType::Client(ApplicationType::Chat));
    // two ways to 50: 40-3-4-50 and 40-3-5-6-50
    for path in [vec![40u8, 3, 4, 50], vec![40u8, 3, 5, 6, 50]] {
        let request = FloodRequest { flood_id: 1, initiator_id: 40, path_trace: trace_with(&path) };
        c.handle_packet(request.generate_response(0));
    }
    c.calculate_routes();
    let session = c.new_session_id().unwrap();
    let first = c.send_message(50, session, &b"hi".to_vec()).unwrap();
    assert_eq!(first[0].1.routing_header.hops, vec![40, 3, 4, 50]);
    // drone 3 cannot reach 4
    let nack = Packet {
        pack_type: PacketType::Nack(Nack { fragment_index: 0, nack_type: NackType::ErrorInRouting(4) }),
        routing_header: SourceRoutingHeader { hop_index: 1, hops: vec![3, 40] },
        session_id: session,
    };
    let out = c.handle_packet(nack);
    assert_eq!(out.to_send.len(), 1);
    let hops = &out.to_send[0].1.routing_header.hops;
    assert_eq!(hops, &vec![40, 3, 5, 6, 50]);
    assert!(!hops.windows(2).any(|w| w == [3, 4] || w == [4, 3]));
}

fn trace_with(ids: &[u8]) -> Vec<(u8, SimpleNodeType)> {
    ids.iter()
        .map(|id| {
            let kind = match *id {
                40 => SimpleNodeType::Client,
                50 => SimpleNodeType::Server,
                _ => SimpleNodeType::Drone,
            };
            (*id, kind)
        })
        .collect()
}

#[test]
fn unexpected_recipient_marks_server_unwanted() {
    let mut c = client();
    let nack = Packet {
        pack_type: PacketType::Nack(Nack { fragment_index: 0, nack_type: NackType::UnexpectedRecipient(50) }),
        routing_header: SourceRoutingHeader { hop_index: 5, hops: vec![50, 8, 6, 4, 3, 40] },
        session_id: 7,
    };
    let out = c.handle_packet(nack);
    assert!(out.to_send.is_empty());
    assert!(!c.can_reach(50));
    assert_eq!(c.calculate_routes(), 0);
}

#[test]
fn delivery_happens_once_per_session() {
    let mut c = client();
    let mut s = server();
    let session = c.new_session_id().unwrap();
    let sent = c.send_message(50, session, &b"once".to_vec()).unwrap();
    let packet = arrive(sent[0].1.clone());
    assert!(s.handle_packet(packet.clone()).delivered.is_some());
    let again = s.handle_packet(packet);
    assert!(again.delivered.is_none());
    assert_eq!(again.to_send.len(), 1);
}

#[test]
fn flood_request_is_answered_backwards() {
    let mut s = Host::new(50, NodeType::Server(ApplicationType::Chat));
    let request = Packet {
        pack_type: PacketType::FloodRequest(FloodRequest { flood_id: 77, initiator_id: 40, path_trace: trace(&[40, 3, 8]) }),
        routing_header: SourceRoutingHeader::empty_route(),
        session_id: 3,
    };
    let out = s.handle_packet(request);
    assert_eq!(out.to_send.len(), 1);
    let (next, p) = &out.to_send[0];
    assert_eq!(*next, 8);
    assert_eq!(p.routing_header.hops, vec![50, 8, 3, 40]);
    match &p.pack_type {
        PacketType::FloodResponse(r) => {
            assert_eq!(r.flood_id, 77);
            assert_eq!(r.path_trace.last(), Some(&(50, SimpleNodeType::Server)));
        }
        _ => panic!("expected a flood response"),
    }
}

#[test]
fn flood_discovery_finds_the_server() {
    let mut c = Host::new(0, NodeType::Client(ApplicationType::Chat));
    let (flood_id, packet) = c.initiate_flood();
    match &packet.pack_type {
        PacketType::FloodRequest(r) => {
            assert_eq!(r.flood_id, flood_id);
            assert_eq!(r.path_trace, vec![(0, SimpleNodeType::Client)]);
        }
        _ => panic!("expected a flood request"),
    }
    let traces: Vec<Vec<(u8, SimpleNodeType)>> = vec![
        vec![(0, SimpleNodeType::Client), (3, SimpleNodeType::Drone), (1, SimpleNodeType::Client)],
        vec![(0, SimpleNodeType::Client), (3, SimpleNodeType::Drone), (4, SimpleNodeType::Drone), (2, SimpleNodeType::Server)],
        vec![(0, SimpleNodeType::Client), (5, SimpleNodeType::Drone), (6, SimpleNodeType::Drone), (7, SimpleNodeType::Drone), (8, SimpleNodeType::Drone), (2, SimpleNodeType::Server)],
    ];
    for t in traces {
        let r = FloodRequest { flood_id, initiator_id: 0, path_trace: t };
        c.handle_packet(r.generate_response(9));
    }
    assert!(c.calculate_routes() >= 1);
    let sent = c.send_message(2, 1, &b"hello".to_vec()).unwrap();
    let route = &sent[0].1.routing_header.hops;
    assert_eq!(route.first(), Some(&0));
    assert_eq!(route.last(), Some(&2));
    assert_eq!(route, &vec![0, 3, 4, 2]);
}

#[test]
fn lifecycle_never_goes_back() {
    let mut h = Host::new(1, NodeType::Client(ApplicationType::Chat));
    assert_eq!(h.state(), HostState::Idle);
    h.crash();
    assert_eq!(h.state(), HostState::Idle);
    h.start();
    assert!(h.is_active());
    h.crash();
    assert_eq!(h.state(), HostState::Stopping);
    h.start();
    assert_eq!(h.state(), HostState::Stopping);
    h.finish();
    assert_eq!(h.state(), HostState::Terminated);
}

#[test]
fn rejection_names_this_host() {
    let s = Host::new(50, NodeType::Server(ApplicationType::Chat));
    let route = SourceRoutingHeader { hop_index: 0, hops: vec![50, 8, 40] };
    let (next, p) = s.reject_message(4, route).unwrap();
    assert_eq!(next, 8);
    assert!(matches!(
        p.pack_type,
        PacketType::Nack(Nack { fragment_index: 0, nack_type: NackType::UnexpectedRecipient(50) })
    ));
}

#[test]
fn malformed_request_is_rejected_back_along_the_route() {
    let mut s = server();
    let fragment = overlay_host::codec::split_into_fragments(&b"not a message".to_vec()).remove(0);
    let packet = Packet {
        pack_type: PacketType::MsgFragment(fragment),
        routing_header: SourceRoutingHeader { hop_index: 5, hops: PATH.to_vec() },
        session_id: 11,
    };
    let d = s.handle_packet(packet).delivered.unwrap();
    let (next, nack) = s.reject_message(d.session_id, d.reply_route).unwrap();
    assert_eq!(next, 8);
    assert_eq!(nack.session_id, 11);
    assert!(matches!(
        nack.pack_type,
        PacketType::Nack(Nack { fragment_index: 0, nack_type: NackType::UnexpectedRecipient(50) })
    ));
}

#[test]
fn maintenance_every_thirty_seconds() {
    assert!(!overlay_host::host::maintenance_due(30));
    assert!(overlay_host::host::maintenance_due(31));
}
