use overlay_host::graph::Graph;
use overlay_host::node::{ApplicationType, Drone, FragmentDelivery, Node, NodeType};

#[test]
fn links_are_undirected_and_simple() {
    let mut g = Graph::new();
    g.insert_node(Node::new(1, NodeType::Drone(Drone::new())));
    g.insert_node(Node::new(2, NodeType::Drone(Drone::new())));
    g.add_undirected_edge(1, 2);
    g.add_undirected_edge(2, 1);
    g.add_undirected_edge(1, 1);
    assert_eq!(g.adjacents(1), vec![2]);
    assert_eq!(g.adjacents(2), vec![1]);
    g.remove_undirected_edge(2, 1);
    assert!(g.adjacents(1).is_empty());
}

#[test]
fn nodes_are_keyed_by_id() {
    let mut g = Graph::new();
    assert!(!g.contains(5));
    g.insert_node(Node::new(5, NodeType::Server(ApplicationType::Unknown)));
    g.insert_node(Node::new(5, NodeType::Server(ApplicationType::Content)));
    assert_eq!(g.get(5).unwrap().node_type.application(), Some(&ApplicationType::Content));
    g.set_application(5, ApplicationType::Unwanted);
    assert_eq!(g.get(5).unwrap().node_type.application(), Some(&ApplicationType::Unwanted));
    assert_eq!(g.node_cost(5), 0);
}

#[test]
fn drone_histories_merge() {
    let mut g = Graph::new();
    g.insert_node(Node::new(3, NodeType::Drone(Drone::with_delivery(vec![FragmentDelivery::Dropped]))));
    g.merge_drone(3, Drone::with_delivery(vec![FragmentDelivery::Dropped, FragmentDelivery::Forwarded]));
    match &g.get(3).unwrap().node_type {
        NodeType::Drone(d) => assert_eq!(d.dropped_count(), 2),
        _ => panic!("expected a drone"),
    }
    g.reset_to(Node::new(9, NodeType::Client(ApplicationType::Chat)));
    assert!(!g.contains(3));
    assert!(g.contains(9));
}
