use overlay_host::card::Rarity;
use overlay_host::node::{ApplicationType, Drone, FragmentDelivery, Node, NodeType, ALPHA};
use overlay_host::packet::SimpleNodeType;
use overlay_host::turn::TurnHandler;

#[test]
fn compatibility_table() {
    let (chat, content) = (ApplicationType::Chat, ApplicationType::Content);
    let (unknown, unwanted) = (ApplicationType::Unknown, ApplicationType::Unwanted);
    assert!(unknown.compatible(&unwanted));
    assert!(chat.compatible(&unknown));
    assert!(!unwanted.compatible(&chat));
    assert!(!chat.compatible(&content));
    assert!(content.compatible(&content));
}

#[test]
fn history_is_bounded() {
    let mut d = Drone::with_delivery(vec![FragmentDelivery::Dropped; 300]);
    assert_eq!(d.dropped_count(), 250);
    d.record_delivery(FragmentDelivery::Forwarded);
    assert_eq!(d.dropped_count(), 249);
    let mut e = Drone::new();
    e.merge_drone(Drone::with_delivery(vec![FragmentDelivery::Forwarded; 3]));
    assert_eq!(e.dropped_count(), 0);
}

#[test]
fn drone_cost_values() {
    // fewer than 25 outcomes: no drop rate yet
    assert_eq!(Drone::with_delivery(vec![FragmentDelivery::Dropped; 24]).cost(), ALPHA);
    assert_eq!(Drone::new().cost(), 100_000);
    assert_eq!(Drone::default().cost(), ALPHA);
    // half dropped: 1/(1-p) = 2, log2 = 1
    let mut half = vec![FragmentDelivery::Dropped; 125];
    half.extend(vec![FragmentDelivery::Forwarded; 125]);
    assert_eq!(Drone::with_delivery(half).cost(), 1_000_000);
    // three quarters dropped: log2 4 = 2
    let mut most = vec![FragmentDelivery::Dropped; 75];
    most.extend(vec![FragmentDelivery::Forwarded; 25]);
    assert_eq!(Drone::with_delivery(most).cost(), 1_900_000);
    // a third dropped: 0.1 + 0.9 * log2(1.5) = 0.626466...
    let mut third = vec![FragmentDelivery::Dropped; 25];
    third.extend(vec![FragmentDelivery::Forwarded; 50]);
    assert_eq!(Drone::with_delivery(third).cost(), 626_464);
    // all dropped: the drop rate is capped at 0.9999
    assert_eq!(Drone::with_delivery(vec![FragmentDelivery::Dropped; 250]).cost(), 12_058_398);
}

#[test]
fn drone_cost_grows_with_drop_ratio() {
    let mut last = 0;
    for dropped in 0..=100usize {
        let mut h = vec![FragmentDelivery::Dropped; dropped];
        h.extend(vec![FragmentDelivery::Forwarded; 100 - dropped]);
        let c = Drone::with_delivery(h).cost();
        assert!(c >= ALPHA);
        assert!(c >= last);
        last = c;
    }
}

#[test]
fn hosts_cost_nothing() {
    assert_eq!(NodeType::Server(ApplicationType::Chat).cost(), 0);
    assert_eq!(NodeType::Client(ApplicationType::Unknown).cost(), 0);
}

#[test]
fn counterparts() {
    let s = NodeType::Server(ApplicationType::Chat);
    assert_eq!(s.weak_counter_part().to_simple(), SimpleNodeType::Client);
    assert_eq!(s.weak_counter_part().application(), Some(&ApplicationType::Unknown));
    assert_eq!(s.strong_counter_part().to_simple(), SimpleNodeType::Client);
    assert_eq!(s.strong_counter_part().application(), Some(&ApplicationType::Chat));
    let c = NodeType::Client(ApplicationType::Content);
    assert_eq!(c.strong_counter_part().to_simple(), SimpleNodeType::Server);
    assert_eq!(c.strong_counter_part().application(), Some(&ApplicationType::Content));
    let mut c = NodeType::Client(ApplicationType::Chat);
    *c.application_mut().unwrap() = ApplicationType::Unwanted;
    assert_eq!(c.application(), Some(&ApplicationType::Unwanted));
    assert!(NodeType::Drone(Drone::new()).application().is_none());
}

#[test]
fn route_meaningful_pairs() {
    let client = Node::new(1, NodeType::Client(ApplicationType::Chat));
    let server = Node::new(2, NodeType::Server(ApplicationType::Unknown));
    let other = Node::new(3, NodeType::Client(ApplicationType::Chat));
    let drone = Node::new(4, NodeType::Drone(Drone::new()));
    assert!(client.is_route_meaningful(&server));
    assert!(!client.is_route_meaningful(&other));
    assert!(!client.is_route_meaningful(&drone));
}

#[test]
fn usefulness_of_new_information() {
    let unknown = Node::new(2, NodeType::Server(ApplicationType::Unknown));
    let chat = Node::new(2, NodeType::Server(ApplicationType::Chat));
    assert!(unknown.is_other_useful(&chat));
    assert!(!chat.is_other_useful(&unknown));
    let d = Node::new(3, NodeType::Drone(Drone::new()));
    let seen = Node::new(3, NodeType::Drone(Drone::with_delivery(vec![FragmentDelivery::Forwarded])));
    assert!(d.is_other_useful(&seen));
    assert!(!d.is_other_useful(&d.clone()));
}

#[test]
fn turns_go_round() {
    let mut t = TurnHandler::new();
    t.subscribe(4);
    t.subscribe(7);
    t.subscribe(9);
    assert_eq!(t.current_turn(), 4);
    t.yield_turn();
    assert_eq!(t.current_turn(), 7);
    t.yield_turn();
    t.yield_turn();
    assert_eq!(t.current_turn(), 4);
    t.yield_turn();
    t.yield_turn();
    t.unsubscribe(9);
    assert_eq!(t.current_turn(), 4);
}

#[test]
fn rarity_weights() {
    assert_eq!(Rarity::Common.to_prob_value(), 3);
    assert_eq!(Rarity::Rare.to_prob_value(), 2);
    assert_eq!(Rarity::Quacking.to_prob_value(), 1);
}

#[test]
fn dropped_nack_tells_the_reporter_dropped() {
    let source = Node::new(40, NodeType::Client(ApplicationType::Chat));
    let packet = overlay_host::packet::Packet {
        pack_type: overlay_host::packet::PacketType::Nack(overlay_host::packet::Nack {
            fragment_index: 2,
            nack_type: overlay_host::packet::NackType::Dropped,
        }),
        routing_header: overlay_host::packet::SourceRoutingHeader { hop_index: 2, hops: vec![4, 3, 40] },
        session_id: 1,
    };
    let infos = overlay_host::information::get_information(&packet, &source);
    assert_eq!(infos.len(), 4);
    match &infos[0] {
        overlay_host::information::Information::AddNode(n) => {
            assert_eq!(n.id, 4);
            match &n.node_type {
                NodeType::Drone(d) => assert_eq!(d.dropped_count(), 1),
                _ => panic!("expected a drone"),
            }
        }
        _ => panic!("expected a node"),
    }
    match &infos[1] {
        overlay_host::information::Information::AddNode(n) => {
            assert_eq!(n.id, 3);
            match &n.node_type {
                NodeType::Drone(d) => assert_eq!(d.dropped_count(), 0),
                _ => panic!("expected a drone"),
            }
        }
        _ => panic!("expected a node"),
    }
    assert!(matches!(infos[2], overlay_host::information::Information::AddEdge(4, 3)));
    assert!(matches!(infos[3], overlay_host::information::Information::AddEdge(3, 40)));
}

#[test]
fn ack_records_the_counterpart_with_its_app() {
    let source = Node::new(40, NodeType::Client(ApplicationType::Chat));
    let packet = overlay_host::packet::Packet {
        pack_type: overlay_host::packet::PacketType::Ack(overlay_host::packet::Ack { fragment_index: 0 }),
        routing_header: overlay_host::packet::SourceRoutingHeader { hop_index: 2, hops: vec![50, 3, 40] },
        session_id: 1,
    };
    let infos = overlay_host::information::get_information(&packet, &source);
    match &infos[0] {
        overlay_host::information::Information::AddNode(n) => {
            assert_eq!(n.id, 50);
            assert_eq!(n.node_type.to_simple(), SimpleNodeType::Server);
            assert_eq!(n.node_type.application(), Some(&ApplicationType::Chat));
        }
        _ => panic!("expected a node"),
    }
}
