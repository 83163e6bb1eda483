use overlay_host::node::{ApplicationType, Drone, FragmentDelivery, Node, NodeType};
use overlay_host::routing::SourceRouter;

fn router_with(nodes: Vec<(u8, NodeType, Vec<u8>)>, source: Node) -> SourceRouter {
    let mut router = SourceRouter::new(source);
    for (id, kind, _) in nodes.iter() {
        router.add_node(Node::new(*id, kind.clone()));
    }
    for (id, _, adj) in nodes.iter() {
        for a in adj {
            router.add_edge(*id, *a);
        }
    }
    router
}

fn nine_nodes() -> Vec<(u8, NodeType, Vec<u8>)> {
    vec![
        (0, NodeType::Client(ApplicationType::Chat), vec![3, 5]),
        (1, NodeType::Client(ApplicationType::Chat), vec![3, 4]),
        (2, NodeType::Server(ApplicationType::Chat), vec![4, 8]),
        (3, NodeType::Drone(Drone::new()), vec![0, 1, 4]),
        (4, NodeType::Drone(Drone::new()), vec![1, 2, 3]),
        (5, NodeType::Drone(Drone::new()), vec![0, 6]),
        (6, NodeType::Drone(Drone::new()), vec![5, 7]),
        (7, NodeType::Drone(Drone::new()), vec![6, 8]),
        (8, NodeType::Drone(Drone::new()), vec![2, 7]),
    ]
}

#[test]
fn route_with_host() {
    let mut router = router_with(nine_nodes(), Node::new(0, NodeType::Client(ApplicationType::Chat)));

    let count = router.calculate_routes();

    println!("Calculated {} routes", count);
    assert_eq!(count, 2);

    let route = router.get_best_route(2).unwrap();
    println!("Route to 2: {:?}", route);
    assert_eq!(route.hops, vec![0, 3, 4, 2]);

    let route = router.get_best_route(2).unwrap();
    println!("Route to 2: {:?}", route);
    assert_eq!(route.hops.first(), Some(&0));
    assert_eq!(route.hops.last(), Some(&2));

    let route = router.get_best_route(2).unwrap();
    println!("Route to 2: {:?}", route);
    assert_eq!(route.hop_index, 0);
}

#[test]
fn stored_routes_are_host_routes() {
    let mut router = router_with(nine_nodes(), Node::new(0, NodeType::Client(ApplicationType::Chat)));
    router.calculate_routes();
    assert!(router.can_reach(2));
    assert!(!router.can_reach(1));
    assert_eq!(router.reachable_servers(), vec![2]);
    let long = router.get_best_route(7);
    assert!(long.is_none());
}

#[test]
fn equal_cost_routes_round_robin() {
    // 0 - 3 - 2 and 0 - 4 - 2: two routes of equal cost.
    let nodes = vec![
        (0, NodeType::Client(ApplicationType::Unknown), vec![3, 4]),
        (2, NodeType::Server(ApplicationType::Chat), vec![3, 4]),
        (3, NodeType::Drone(Drone::new()), vec![0, 2]),
        (4, NodeType::Drone(Drone::new()), vec![0, 2]),
    ];
    let mut router = router_with(nodes, Node::new(0, NodeType::Client(ApplicationType::Unknown)));
    assert_eq!(router.calculate_routes(), 2);
    let a = router.get_best_route(2).unwrap().hops;
    let b = router.get_best_route(2).unwrap().hops;
    let c = router.get_best_route(2).unwrap().hops;
    assert_ne!(a, b);
    assert_eq!(a, c);
    assert!(a == vec![0, 3, 2] || a == vec![0, 4, 2]);
    assert!(b == vec![0, 3, 2] || b == vec![0, 4, 2]);
}

#[test]
fn cheaper_route_wins() {
    let nodes = vec![
        (0, NodeType::Client(ApplicationType::Chat), vec![3, 4]),
        (2, NodeType::Server(ApplicationType::Chat), vec![3, 4]),
        (3, NodeType::Drone(Drone::with_delivery(vec![FragmentDelivery::Dropped; 30])), vec![0, 2]),
        (4, NodeType::Drone(Drone::new()), vec![0, 2]),
    ];
    let mut router = router_with(nodes, Node::new(0, NodeType::Client(ApplicationType::Chat)));
    assert_eq!(router.calculate_routes(), 2);
    for _ in 0..3 {
        assert_eq!(router.get_best_route(2).unwrap().hops, vec![0, 4, 2]);
    }
}

#[test]
fn removing_a_link_purges_routes_through_it() {
    let mut router = router_with(nine_nodes(), Node::new(0, NodeType::Client(ApplicationType::Chat)));
    router.calculate_routes();
    router.remove_edge(4, 3);
    let route = router.get_best_route(2).unwrap();
    assert_eq!(route.hops, vec![0, 5, 6, 7, 8, 2]);
    assert!(!route.hops.windows(2).any(|w| w == [3, 4] || w == [4, 3]));
}

#[test]
fn unwanted_node_drops_its_routes() {
    let mut router = router_with(nine_nodes(), Node::new(0, NodeType::Client(ApplicationType::Chat)));
    router.calculate_routes();
    router.unwanted_node(2);
    assert!(!router.can_reach(2));
    assert!(router.get_best_route(2).is_none());
    assert_eq!(router.calculate_routes(), 0);
}

#[test]
fn incompatible_applications_give_no_route() {
    let nodes = vec![
        (0, NodeType::Client(ApplicationType::Chat), vec![3]),
        (2, NodeType::Server(ApplicationType::Content), vec![3]),
        (3, NodeType::Drone(Drone::new()), vec![0, 2]),
    ];
    let mut router = router_with(nodes, Node::new(0, NodeType::Client(ApplicationType::Chat)));
    assert_eq!(router.calculate_routes(), 0);
}

#[test]
fn forget_topology_keeps_only_self() {
    let mut router = router_with(nine_nodes(), Node::new(0, NodeType::Client(ApplicationType::Chat)));
    router.calculate_routes();
    router.forget_topology();
    assert!(!router.can_reach(2));
    assert!(router.graph().contains(0));
    assert!(!router.graph().contains(3));
    assert_eq!(router.calculate_routes(), 0);
}

#[test]
fn known_host_is_not_replaced_but_unknown_is() {
    let mut router = SourceRouter::new(Node::new(0, NodeType::Client(ApplicationType::Chat)));
    router.add_node(Node::new(2, NodeType::Server(ApplicationType::Unknown)));
    router.add_node(Node::new(2, NodeType::Server(ApplicationType::Chat)));
    assert_eq!(router.graph().get(2).unwrap().node_type.application(), Some(&ApplicationType::Chat));
    router.add_node(Node::new(2, NodeType::Server(ApplicationType::Content)));
    assert_eq!(router.graph().get(2).unwrap().node_type.application(), Some(&ApplicationType::Chat));
    router.add_node(Node::new(2, NodeType::Drone(Drone::new())));
    assert_eq!(router.graph().get(2).unwrap().node_type.application(), Some(&ApplicationType::Chat));
}

#[test]
fn each_route_stored_once() {
    // Two one-drone routes tie for cheapest; the two-drone routes follow.
    let nodes = vec![
        (0, NodeType::Client(ApplicationType::Chat), vec![3, 4]),
        (2, NodeType::Server(ApplicationType::Chat), vec![3, 4]),
        (3, NodeType::Drone(Drone::new()), vec![0, 2, 4]),
        (4, NodeType::Drone(Drone::new()), vec![0, 2, 3]),
    ];
    let mut router = router_with(nodes, Node::new(0, NodeType::Client(ApplicationType::Chat)));
    // [0,3,2], [0,4,2], [0,3,4,2], [0,4,3,2]: each once
    assert_eq!(router.calculate_routes(), 4);
    let first = router.get_best_route(2).unwrap().hops;
    let second = router.get_best_route(2).unwrap().hops;
    assert_eq!(first.len(), 3);
    assert_eq!(second.len(), 3);
    assert_ne!(first, second);
}
