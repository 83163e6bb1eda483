//! The route table: every simple path from this host to a useful peer,
//! ranked by cost, with round-robin among the cheapest.

use vstd::prelude::*;
use vstd::arithmetic::div_mod::{lemma_fundamental_div_mod, lemma_fundamental_div_mod_converse};
use vstd::set_lib::{lemma_int_range, lemma_len_subset, lemma_map_size, set_int_range};
use crate::graph::Graph;
use crate::node::{
    ApplicationType, Node, NodeId, NodeModel, NodeType, is_host, is_other_useful_spec,
    is_route_meaningful_spec, keep_last, node_cost,
};
use crate::information::{InfoModel, Information, get_information, info_models, packet_infos};
use crate::packet::{Packet, SourceRoutingHeader};

verus! {

/// No simple path over byte-sized ids is longer than this.
pub const MAX_ROUTE_LEN: usize = 256;

/// A route never repeats a node, so it has at most `MAX_ROUTE_LEN` hops.
pub proof fn lemma_simple_path_len(s: Seq<NodeId>)
    requires
        s.no_duplicates(),
    ensures
        s.len() <= MAX_ROUTE_LEN,
{
    s.unique_seq_to_set();
    let x = s.to_set();
    let f = |v: NodeId| v as int;
    let y = x.map(f);
    assert(vstd::relations::injective_on(f, x));
    lemma_map_size(x, y, f);
    lemma_int_range(0, 256);
    assert(y.subset_of(set_int_range(0, 256)));
    lemma_len_subset(y, set_int_range(0, 256));
}

/// Sum of the costs of the nodes of `p`.
pub open spec fn path_cost(g: Map<NodeId, NodeModel>, p: Seq<NodeId>) -> nat
    decreases p.len(),
{
    if p.len() == 0 {
        0
    } else {
        path_cost(g, p.drop_last()) + node_cost(g[p.last()])
    }
}

/// `p` is a simple path of `g`: known nodes, no repeats, linked hop to hop.
pub open spec fn is_path(g: Graph, p: Seq<NodeId>) -> bool {
    &&& p.len() >= 1
    &&& p.no_duplicates()
    &&& forall|i: int| 0 <= i < p.len() ==> g.node_map().contains_key(#[trigger] p[i])
    &&& forall|i: int| 0 <= i < p.len() - 1 ==> g.edge(#[trigger] p[i], p[i + 1])
}

/// `p` may be stored as a route of the host `src`: a simple path from `src`
/// to a host whose inner nodes are all drones, so that it holds exactly two
/// hosts.
pub open spec fn is_host_route(g: Graph, src: NodeId, p: Seq<NodeId>) -> bool {
    &&& is_path(g, p)
    &&& p[0] == src
    &&& p.len() >= 2
    &&& is_host(g.node_map()[p.last()])
    &&& forall|i: int| 0 < i < p.len() - 1 ==> (#[trigger] g.node_map()[p[i]]) is Drone
}

/// `p` steps from `a` straight to `b`.
pub open spec fn has_step(p: Seq<NodeId>, a: NodeId, b: NodeId) -> bool {
    exists|i: int| 0 <= i < p.len() - 1 && #[trigger] p[i] == a && p[i + 1] == b
}

#[derive(Debug)]
pub struct Route {
    hops: Vec<NodeId>,
}

impl View for Route {
    type V = Seq<NodeId>;

    closed spec fn view(&self) -> Seq<NodeId> {
        self.hops@
    }
}

impl Clone for Route {
    fn clone(&self) -> (r: Self)
        ensures
            r@ == self@,
    {
        Route { hops: self.hops.clone() }
    }
}

impl Route {
    pub fn new(hops: Vec<NodeId>) -> (r: Self)
        ensures
            r@ == hops@,
    {
        Route { hops }
    }

    /// Sum of the costs of the route's nodes.
    pub fn cost(&self, graph: &Graph) -> (r: u64)
        requires
            graph.wf(),
            self@.no_duplicates(),
            forall|i: int| 0 <= i < self@.len() ==> graph.node_map().contains_key(#[trigger] self@[i]),
        ensures
            r == path_cost(graph.node_map(), self@),
    {
        proof {
            lemma_simple_path_len(self@);
        }
        let mut total: u64 = 0;
        let mut i: usize = 0;
        while i < self.hops.len()
            invariant
                graph.wf(),
                i <= self@.len() <= MAX_ROUTE_LEN,
                forall|k: int| 0 <= k < self@.len() ==> graph.node_map().contains_key(#[trigger] self@[k]),
                total == path_cost(graph.node_map(), self@.subrange(0, i as int)),
                total <= i * crate::node::MAX_NODE_COST,
            decreases self@.len() - i,
        {
            let id = self.hops[i];
            proof {
                graph.lemma_node_wf(id);
                crate::node::lemma_node_cost_bound(graph.node_map()[id]);
                assert(self@.subrange(0, i + 1).drop_last() =~= self@.subrange(0, i as int));
            }
            total = total + graph.node_cost(id);
            i = i + 1;
        }
        proof {
            assert(self@.subrange(0, i as int) =~= self@);
        }
        total
    }

    pub fn to_source_routing_header(&self) -> (r: SourceRoutingHeader)
        ensures
            r.hops@ == self@,
            r.hop_index == 0,
    {
        SourceRoutingHeader::initialize(self.hops.clone())
    }

    pub fn source(&self) -> (r: Option<NodeId>)
        ensures
            r == (if self@.len() > 0 { Some(self@[0]) } else { None::<NodeId> }),
    {
        if self.hops.len() > 0 {
            Some(self.hops[0])
        } else {
            None
        }
    }

    pub fn destination(&self) -> (r: Option<NodeId>)
        ensures
            r == (if self@.len() > 0 { Some(self@.last()) } else { None::<NodeId> }),
    {
        if self.hops.len() > 0 {
            Some(self.hops[self.hops.len() - 1])
        } else {
            None
        }
    }

    pub fn get_incremented(&self, last_hop: NodeId) -> (r: Route)
        ensures
            r@ == self@.push(last_hop),
    {
        let mut hops = self.hops.clone();
        hops.push(last_hop);
        Route { hops }
    }

    pub fn contains(&self, id: NodeId) -> (r: bool)
        ensures
            r == self@.contains(id),
    {
        let mut i: usize = 0;
        while i < self.hops.len()
            invariant
                i <= self@.len(),
                forall|k: int| 0 <= k < i ==> self@[k] != id,
            decreases self@.len() - i,
        {
            if self.hops[i] == id {
                return true;
            }
            i = i + 1;
        }
        false
    }

    /// Whether both routes have the same hops.
    pub fn same_hops(&self, other: &Route) -> (r: bool)
        ensures
            r == (self@ == other@),
    {
        if self.hops.len() != other.hops.len() {
            return false;
        }
        let mut i: usize = 0;
        while i < self.hops.len()
            invariant
                self@.len() == other@.len(),
                i <= self@.len(),
                forall|k: int| 0 <= k < i ==> self@[k] == other@[k],
            decreases self@.len() - i,
        {
            if self.hops[i] != other.hops[i] {
                return false;
            }
            i = i + 1;
        }
        assert(self@ =~= other@);
        true
    }

    /// Whether the route steps from `from` straight to `to`.
    pub fn contains_edge(&self, from: NodeId, to: NodeId) -> (r: bool)
        ensures
            r == has_step(self@, from, to),
    {
        let mut i: usize = 0;
        while i < self.hops.len()
            invariant
                i <= self@.len(),
                forall|k: int| 0 <= k < i && k < self@.len() - 1 ==> !(#[trigger] self@[k] == from && self@[k + 1] == to),
            decreases self@.len() - i,
        {
            if i + 1 < self.hops.len() && self.hops[i] == from && self.hops[i + 1] == to {
                return true;
            }
            i = i + 1;
        }
        false
    }
}


/// The simple paths that extend `route` by one known neighbor of its last node.
fn extend_route(graph: &Graph, route: &Route) -> (r: Vec<Route>)
    requires
        graph.wf(),
        is_path(*graph, route@),
    ensures
        forall|k: int| 0 <= k < r@.len() ==> is_path(*graph, #[trigger] r@[k]@) && r@[k]@.drop_last() == route@,
        forall|y: NodeId| graph.edge(route@.last(), y) && graph.node_map().contains_key(y)
            && !route@.contains(y) ==> route_views(r@).contains(#[trigger] route@.push(y)),
{
    let last = route.destination().unwrap();
    let adj = graph.adjacents(last);
    let mut out: Vec<Route> = Vec::new();
    let mut i: usize = 0;
    while i < adj.len()
        invariant
            graph.wf(),
            is_path(*graph, route@),
            last == route@.last(),
            i <= adj@.len(),
            forall|y: NodeId| #[trigger] adj@.contains(y) <==> graph.edge(last, y),
            forall|k: int| 0 <= k < out@.len() ==> is_path(*graph, #[trigger] out@[k]@) && out@[k]@.drop_last() == route@,
            forall|j: int| 0 <= j < i && graph.node_map().contains_key(#[trigger] adj@[j]) && !route@.contains(adj@[j])
                ==> route_views(out@).contains(route@.push(adj@[j])),
        decreases adj@.len() - i,
    {
        let y = adj[i];
        let ghost before = out@;
        if graph.contains(y) && !route.contains(y) {
            let next = route.get_incremented(y);
            proof {
                assert(adj@.contains(y));
                let p = next@;
                assert(p.drop_last() =~= route@);
                assert forall|a: int, b: int| 0 <= a < p.len() && 0 <= b < p.len() && a != b implies p[a] != p[b] by {
                    if a < p.len() - 1 && b < p.len() - 1 {
                        assert(p[a] == route@[a] && p[b] == route@[b]);
                    } else if a == p.len() - 1 {
                        assert(route@[b] == p[b]);
                    } else {
                        assert(route@[a] == p[a]);
                    }
                }
                assert forall|k: int| 0 <= k < p.len() - 1 implies graph.edge(#[trigger] p[k], p[k + 1]) by {
                    if k < p.len() - 2 {
                        assert(p[k] == route@[k] && p[k + 1] == route@[k + 1]);
                    } else {
                        assert(p[k] == route@.last());
                    }
                }
            }
            out.push(next);
            proof {
                assert(out@[out@.len() - 1]@ == route@.push(y));
                assert(route_views(out@)[out@.len() - 1] == route@.push(y));
            }
        }
        proof {
            assert forall|j: int| 0 <= j < i + 1 && graph.node_map().contains_key(#[trigger] adj@[j]) && !route@.contains(adj@[j])
                implies route_views(out@).contains(route@.push(adj@[j])) by {
                if j < i {
                    let w = choose|w: int| 0 <= w < before.len() && #[trigger] route_views(before)[w] == route@.push(adj@[j]);
                    assert(route_views(out@)[w] == route@.push(adj@[j]));
                }
            }
        }
        i = i + 1;
    }
    proof {
        assert forall|y: NodeId| graph.edge(route@.last(), y) && graph.node_map().contains_key(y)
            && !route@.contains(y) implies route_views(out@).contains(#[trigger] route@.push(y)) by {
            assert(adj@.contains(y));
            let j = choose|j: int| 0 <= j < adj@.len() && adj@[j] == y;
            assert(graph.node_map().contains_key(adj@[j]));
        }
    }
    out
}

/// The hop lists of `rs`.
pub open spec fn route_views(rs: Seq<Route>) -> Seq<Seq<NodeId>> {
    rs.map_values(|r: Route| r@)
}

/// `p` is a simple path of `g` that starts at `src`.
pub open spec fn is_path_from(g: Graph, src: NodeId, p: Seq<NodeId>) -> bool {
    is_path(g, p) && p[0] == src
}

proof fn lemma_views_push(rs: Seq<Route>, x: Route)
    ensures
        route_views(rs.push(x)) == route_views(rs).push(x@),
{
    assert(route_views(rs.push(x)) =~= route_views(rs).push(x@));
}

proof fn lemma_views_add(a: Seq<Route>, b: Seq<Route>)
    ensures
        route_views(a + b) == route_views(a) + route_views(b),
{
    assert(route_views(a + b) =~= route_views(a) + route_views(b));
}

proof fn lemma_prefix_path(g: Graph, src: NodeId, p: Seq<NodeId>, k: int)
    requires
        is_path_from(g, src, p),
        1 <= k <= p.len(),
    ensures
        is_path_from(g, src, p.subrange(0, k)),
{
    let q = p.subrange(0, k);
    assert forall|a: int, b: int| 0 <= a < q.len() && 0 <= b < q.len() && a != b implies q[a] != q[b] by {
        assert(q[a] == p[a] && q[b] == p[b]);
    }
    assert forall|i: int| 0 <= i < q.len() implies g.node_map().contains_key(#[trigger] q[i]) by {
        assert(q[i] == p[i]);
    }
    assert forall|i: int| 0 <= i < q.len() - 1 implies g.edge(#[trigger] q[i], q[i + 1]) by {
        assert(q[i] == p[i] && q[i + 1] == p[i + 1]);
    }
}

/// Every simple path of `graph` that starts at `source_id`, shortest first.
fn enumerate_routes(graph: &Graph, source_id: NodeId) -> (r: Vec<Route>)
    requires
        graph.wf(),
        graph.node_map().contains_key(source_id),
    ensures
        forall|k: int| 0 <= k < r@.len() ==> is_path_from(*graph, source_id, #[trigger] r@[k]@),
        forall|p: Seq<NodeId>| #[trigger] is_path_from(*graph, source_id, p) ==> route_views(r@).contains(p),
        forall|a: int, b: int| 0 <= a < b < r@.len() ==> (#[trigger] r@[a])@.len() <= (#[trigger] r@[b])@.len(),
{
    let mut all: Vec<Route> = Vec::new();
    let mut start: Vec<NodeId> = Vec::new();
    start.push(source_id);
    let mut level: Vec<Route> = Vec::new();
    level.push(Route::new(start));
    proof {
        assert(level@[0]@ =~= seq![source_id]);
        assert(level@[0]@.no_duplicates());
        assert forall|p: Seq<NodeId>| #[trigger] is_path_from(*graph, source_id, p) && p.len() == 1 implies route_views(level@).contains(p) by {
            assert(p =~= seq![source_id]);
            assert(route_views(level@)[0] == p);
        }
    }
    let mut depth: usize = 1;
    while level.len() > 0 && depth <= MAX_ROUTE_LEN
        invariant
            graph.wf(),
            1 <= depth <= MAX_ROUTE_LEN + 1,
            forall|k: int| 0 <= k < level@.len() ==> is_path_from(*graph, source_id, #[trigger] level@[k]@) && level@[k]@.len() == depth,
            forall|k: int| 0 <= k < all@.len() ==> is_path_from(*graph, source_id, #[trigger] all@[k]@),
            forall|k: int| 0 <= k < all@.len() ==> (#[trigger] all@[k])@.len() < depth,
            forall|a: int, b: int| 0 <= a < b < all@.len() ==> (#[trigger] all@[a])@.len() <= (#[trigger] all@[b])@.len(),
            forall|p: Seq<NodeId>| #[trigger] is_path_from(*graph, source_id, p) && p.len() == depth ==> route_views(level@).contains(p),
            forall|p: Seq<NodeId>| #[trigger] is_path_from(*graph, source_id, p) && p.len() < depth ==> route_views(all@).contains(p),
        decreases MAX_ROUTE_LEN + 1 - depth,
    {
        let mut next: Vec<Route> = Vec::new();
        let mut i: usize = 0;
        while i < level.len()
            invariant
                graph.wf(),
                1 <= depth <= MAX_ROUTE_LEN,
                i <= level@.len(),
                forall|k: int| 0 <= k < level@.len() ==> is_path_from(*graph, source_id, #[trigger] level@[k]@) && level@[k]@.len() == depth,
                forall|k: int| 0 <= k < all@.len() ==> is_path_from(*graph, source_id, #[trigger] all@[k]@),
                forall|k: int| 0 <= k < all@.len() ==> (#[trigger] all@[k])@.len() <= depth,
                forall|a: int, b: int| 0 <= a < b < all@.len() ==> (#[trigger] all@[a])@.len() <= (#[trigger] all@[b])@.len(),
                forall|k: int| 0 <= k < next@.len() ==> is_path_from(*graph, source_id, #[trigger] next@[k]@) && next@[k]@.len() == depth + 1,
                forall|p: Seq<NodeId>| #[trigger] is_path_from(*graph, source_id, p) && p.len() < depth ==> route_views(all@).contains(p),
                forall|k: int| 0 <= k < i ==> route_views(all@).contains(#[trigger] level@[k]@),
                forall|k: int, y: NodeId| 0 <= k < i && graph.edge(level@[k]@.last(), y) && graph.node_map().contains_key(y)
                    && !level@[k]@.contains(y) ==> route_views(next@).contains(#[trigger] level@[k]@.push(y)),
            decreases level@.len() - i,
        {
            let route = &level[i];
            let ghost all_before = all@;
            let copy = route.clone();
            all.push(copy);
            proof {
                lemma_views_push(all_before, copy);
                assert forall|q: Seq<NodeId>| route_views(all_before).contains(q) implies route_views(all@).contains(q) by {
                    let w = choose|w: int| 0 <= w < route_views(all_before).len() && route_views(all_before)[w] == q;
                    assert(route_views(all@)[w] == q);
                }
                assert(route_views(all@)[all_before.len() as int] == route@);
            }
            let mut extended = extend_route(graph, route);
            let ghost next_before = next@;
            let ghost ext = extended@;
            proof {
                assert forall|k: int| 0 <= k < extended@.len() implies is_path_from(*graph, source_id, #[trigger] extended@[k]@) && extended@[k]@.len() == depth + 1 by {
                    assert(extended@[k]@.drop_last()[0] == extended@[k]@[0]);
                }
            }
            next.append(&mut extended);
            proof {
                assert(next@ == next_before + ext);
                lemma_views_add(next_before, ext);
                assert forall|q: Seq<NodeId>| route_views(next_before).contains(q) implies route_views(next@).contains(q) by {
                    let w = choose|w: int| 0 <= w < route_views(next_before).len() && route_views(next_before)[w] == q;
                    assert(route_views(next@)[w] == q);
                }
                assert forall|q: Seq<NodeId>| route_views(ext).contains(q) implies route_views(next@).contains(q) by {
                    let w = choose|w: int| 0 <= w < route_views(ext).len() && route_views(ext)[w] == q;
                    assert(route_views(next@)[next_before.len() + w] == q);
                }
                assert forall|k: int| 0 <= k < next@.len() implies is_path_from(*graph, source_id, #[trigger] next@[k]@) && next@[k]@.len() == depth + 1 by {
                    if k < next_before.len() {
                        assert(next@[k] == next_before[k]);
                    } else {
                        assert(next@[k] == ext[k - next_before.len()]);
                    }
                }
                assert forall|k: int| 0 <= k < i + 1 implies route_views(all@).contains(#[trigger] level@[k]@) by {
                    if k < i {
                        assert(route_views(all_before).contains(level@[k]@));
                    }
                }
            }
            i = i + 1;
        }
        proof {
            assert forall|p: Seq<NodeId>| #[trigger] is_path_from(*graph, source_id, p) && p.len() == depth + 1 implies route_views(next@).contains(p) by {
                let q = p.subrange(0, depth as int);
                lemma_prefix_path(*graph, source_id, p, depth as int);
                assert(route_views(level@).contains(q));
                let k = choose|k: int| 0 <= k < route_views(level@).len() && route_views(level@)[k] == q;
                assert(level@[k]@ == q);
                let y = p.last();
                assert(q.push(y) =~= p);
                assert(graph.edge(p[depth - 1], p[depth as int]));
                assert(q.last() == p[depth - 1]);
                assert(!q.contains(y)) by {
                    if q.contains(y) {
                        let w = choose|w: int| 0 <= w < q.len() && q[w] == y;
                        assert(p[w] == p[depth as int]);
                    }
                }
                assert(graph.node_map().contains_key(p[depth as int]));
                assert(route_views(next@).contains(level@[k]@.push(y)));
            }
            assert forall|p: Seq<NodeId>| #[trigger] is_path_from(*graph, source_id, p) && p.len() < depth + 1 implies route_views(all@).contains(p) by {
                if p.len() == depth {
                    assert(route_views(level@).contains(p));
                    let k = choose|k: int| 0 <= k < route_views(level@).len() && route_views(level@)[k] == p;
                    assert(level@[k]@ == p);
                }
            }
        }
        level = next;
        depth = depth + 1;
    }
    proof {
        assert forall|p: Seq<NodeId>| #[trigger] is_path_from(*graph, source_id, p) implies route_views(all@).contains(p) by {
            lemma_simple_path_len(p);
            if p.len() >= depth {
                lemma_prefix_path(*graph, source_id, p, depth as int);
                let q = p.subrange(0, depth as int);
                assert(is_path_from(*graph, source_id, q) && q.len() == depth);
                assert(route_views(level@).contains(q));
            }
        }
    }
    all
}

/// `routes` holds the costs of `g`'s routes in non-decreasing order.
pub open spec fn sorted_by_cost(g: Map<NodeId, NodeModel>, routes: Seq<Seq<NodeId>>) -> bool {
    forall|i: int, j: int| 0 <= i < j < routes.len() ==> #[trigger] path_cost(g, routes[i]) <= #[trigger] path_cost(g, routes[j])
}

/// The routes worth storing for the host `src`.
pub open spec fn is_useful_route(g: Graph, src: NodeId, p: Seq<NodeId>) -> bool {
    &&& is_host_route(g, src, p)
    &&& is_route_meaningful_spec(g.node_map()[src], g.node_map()[p.last()])
}

/// The costs in `s` do not decrease.
pub open spec fn cost_sorted(s: Seq<(u64, Route)>) -> bool {
    forall|a: int, b: int| 0 <= a < b < s.len() ==> #[trigger] s[a].0 <= #[trigger] s[b].0
}

/// No two entries hold the same route.
pub open spec fn distinct_entries(s: Seq<(u64, Route)>) -> bool {
    forall|a: int, b: int| 0 <= a < b < s.len() ==> (#[trigger] s[a]).1@ != (#[trigger] s[b]).1@
}

/// Entries of equal cost come with no more hops first.
pub open spec fn ties_by_length(s: Seq<(u64, Route)>) -> bool {
    forall|a: int, b: int| 0 <= a < b < s.len() && (#[trigger] s[a]).0 == (#[trigger] s[b]).0
        ==> s[a].1@.len() <= s[b].1@.len()
}

/// Inserts `(c, route)` after every entry that costs no more than `c`, so
/// that entries of equal cost keep the order they came in.
fn insert_sorted(sorted: &mut Vec<(u64, Route)>, c: u64, route: Route)
    requires
        cost_sorted(old(sorted)@),
        distinct_entries(old(sorted)@),
        ties_by_length(old(sorted)@),
        forall|k: int| 0 <= k < old(sorted)@.len() ==> (#[trigger] old(sorted)@[k]).1@ != route@
            && old(sorted)@[k].1@.len() <= route@.len(),
    ensures
        cost_sorted(final(sorted)@),
        distinct_entries(final(sorted)@),
        ties_by_length(final(sorted)@),
        final(sorted)@.len() == old(sorted)@.len() + 1,
        forall|k: int| 0 <= k < final(sorted)@.len() ==> #[trigger] final(sorted)@[k] == (c, route)
            || old(sorted)@.contains(final(sorted)@[k]),
        final(sorted)@.contains((c, route)),
        forall|k: int| 0 <= k < old(sorted)@.len() ==> final(sorted)@.contains(#[trigger] old(sorted)@[k]),
{
    let mut p: usize = 0;
    while p < sorted.len() && sorted[p].0 <= c
        invariant
            p <= sorted@.len(),
            forall|k: int| 0 <= k < p ==> #[trigger] sorted@[k].0 <= c,
        decreases sorted@.len() - p,
    {
        p = p + 1;
    }
    let ghost before = sorted@;
    sorted.insert(p, (c, route));
    proof {
        assert forall|a: int, b: int| 0 <= a < b < sorted@.len() implies #[trigger] sorted@[a].0 <= #[trigger] sorted@[b].0 by {
            if b < p {
                assert(sorted@[a] == before[a] && sorted@[b] == before[b]);
            } else if b == p {
                assert(sorted@[a] == before[a]);
            } else if a < p {
                assert(sorted@[b] == before[b - 1]);
                assert(sorted@[a] == before[a]);
                assert(before[p as int].0 > c);
                assert(before[p as int].0 <= before[b - 1].0 || p == b - 1);
            } else if a == p {
                assert(sorted@[b] == before[b - 1]);
                assert(before[p as int].0 > c);
                assert(before[p as int].0 <= before[b - 1].0 || p == b - 1);
            } else {
                assert(sorted@[b] == before[b - 1]);
                assert(sorted@[a] == before[a - 1]);
            }
        }
        assert forall|k: int| 0 <= k < sorted@.len() implies #[trigger] sorted@[k] == (c, route) || before.contains(sorted@[k]) by {
            if k < p {
                assert(sorted@[k] == before[k]);
            } else if k > p {
                assert(sorted@[k] == before[k - 1]);
            }
        }
        assert(sorted@[p as int] == (c, route));
        assert forall|k: int| 0 <= k < before.len() implies sorted@.contains(#[trigger] before[k]) by {
            if k < p {
                assert(sorted@[k] == before[k]);
            } else {
                assert(sorted@[k + 1] == before[k]);
            }
        }
        assert forall|a: int, b: int| 0 <= a < b < sorted@.len() implies (#[trigger] sorted@[a]).1@ != (#[trigger] sorted@[b]).1@ by {
            let oa = if a < p { a } else { a - 1 };
            let ob = if b < p { b } else { b - 1 };
            if a != p && b != p {
                assert(sorted@[a] == before[oa] && sorted@[b] == before[ob]);
            } else if a == p {
                assert(sorted@[b] == before[ob]);
            } else {
                assert(sorted@[a] == before[oa]);
            }
        }
        assert forall|a: int, b: int| 0 <= a < b < sorted@.len() && (#[trigger] sorted@[a]).0 == (#[trigger] sorted@[b]).0
            implies sorted@[a].1@.len() <= sorted@[b].1@.len() by {
            let oa = if a < p { a } else { a - 1 };
            let ob = if b < p { b } else { b - 1 };
            if a != p && b != p {
                assert(sorted@[a] == before[oa] && sorted@[b] == before[ob]);
            } else if a == p {
                assert(sorted@[b] == before[ob]);
                assert(before[p as int].0 > c);
                assert(before[p as int].0 <= before[ob].0 || ob == p);
            } else {
                assert(sorted@[a] == before[oa]);
            }
        }
    }
}

/// Whether some entry of `sorted` holds `route`.
fn holds_route(sorted: &Vec<(u64, Route)>, route: &Route) -> (r: bool)
    ensures
        r == exists|k: int| 0 <= k < sorted@.len() && (#[trigger] sorted@[k]).1@ == route@,
{
    let mut k: usize = 0;
    while k < sorted.len()
        invariant
            k <= sorted@.len(),
            forall|x: int| 0 <= x < k ==> (#[trigger] sorted@[x]).1@ != route@,
        decreases sorted@.len() - k,
    {
        if sorted[k].1.same_hops(route) {
            return true;
        }
        k = k + 1;
    }
    false
}

/// Whether the path `route` from this host is worth storing.
fn is_storable(graph: &Graph, source_node: &Node, route: &Route) -> (r: bool)
    requires
        graph.wf(),
        is_path(*graph, route@),
        route@[0] == source_node.id,
        graph.node_map().contains_key(source_node.id),
        source_node.node_type@ == graph.node_map()[source_node.id],
    ensures
        r == is_useful_route(*graph, source_node.id, route@),
{
    let n = route.hops.len();
    if n < 2 {
        return false;
    }
    let dest = route.destination().unwrap();
    let dest_node = graph.get(dest).unwrap();
    if dest_node.node_type.to_simple() == crate::packet::SimpleNodeType::Drone {
        return false;
    }
    if !source_node.is_route_meaningful(dest_node) {
        return false;
    }
    let mut j: usize = 1;
    while j < n - 1
        invariant
            graph.wf(),
            is_path(*graph, route@),
            n == route@.len(),
            n >= 2,
            1 <= j <= n - 1,
            forall|k: int| 0 < k < j ==> (#[trigger] graph.node_map()[route@[k]]) is Drone,
        decreases n - j,
    {
        let hop = graph.get(route.hops[j]).unwrap();
        if hop.node_type.to_simple() != crate::packet::SimpleNodeType::Drone {
            return false;
        }
        j = j + 1;
    }
    true
}

proof fn lemma_filter_push<A>(s: Seq<A>, i: int, pred: spec_fn(A) -> bool)
    requires
        0 <= i < s.len(),
    ensures
        s.subrange(0, i + 1).filter(pred) == (if pred(s[i]) {
            s.subrange(0, i).filter(pred).push(s[i])
        } else {
            s.subrange(0, i).filter(pred)
        }),
{
    reveal(Seq::filter);
    assert(s.subrange(0, i + 1).drop_last() =~= s.subrange(0, i));
}

proof fn lemma_filter_members<A>(s: Seq<A>, pred: spec_fn(A) -> bool)
    ensures
        forall|i: int| 0 <= i < s.filter(pred).len() ==> s.contains(#[trigger] s.filter(pred)[i]) && pred(s.filter(pred)[i]),
    decreases s.len(),
{
    reveal(Seq::filter);
    if s.len() > 0 {
        lemma_filter_members(s.drop_last(), pred);
        let out = s.filter(pred);
        assert forall|i: int| 0 <= i < out.len() implies s.contains(#[trigger] out[i]) && pred(out[i]) by {
            let sub = s.drop_last().filter(pred);
            if i < sub.len() {
                assert(out[i] == sub[i]);
                let w = choose|w: int| 0 <= w < s.drop_last().len() && s.drop_last()[w] == sub[i];
                assert(s[w] == out[i]);
            } else {
                assert(out[i] == s.last());
                assert(s[s.len() - 1] == out[i]);
            }
        }
    }
}

/// Routes that end at `d`.
pub open spec fn ends_at(d: NodeId) -> spec_fn(Seq<NodeId>) -> bool {
    |r: Seq<NodeId>| r.len() > 0 && r.last() == d
}

/// The stored routes to `d`, in stored order.
pub open spec fn candidates(routes: Seq<Seq<NodeId>>, d: NodeId) -> Seq<Seq<NodeId>> {
    routes.filter(ends_at(d))
}

/// The first `k` routes of `cs` cost as much as the first, and the next
/// one (if any) does not.
pub open spec fn is_tie_len(g: Map<NodeId, NodeModel>, cs: Seq<Seq<NodeId>>, k: nat) -> bool {
    &&& 1 <= k <= cs.len()
    &&& forall|j: int| 0 <= j < k ==> #[trigger] path_cost(g, cs[j]) == path_cost(g, cs[0])
    &&& (k == cs.len() || path_cost(g, cs[k as int]) != path_cost(g, cs[0]))
}

/// How many routes at the head of `cs` share the cost of the first.
pub open spec fn tie_count(g: Map<NodeId, NodeModel>, cs: Seq<Seq<NodeId>>) -> nat {
    choose|k: nat| is_tie_len(g, cs, k)
}

proof fn lemma_tie_unique(g: Map<NodeId, NodeModel>, cs: Seq<Seq<NodeId>>, k: nat)
    requires
        is_tie_len(g, cs, k),
    ensures
        tie_count(g, cs) == k,
{
    let t = tie_count(g, cs);
    assert(is_tie_len(g, cs, t));
    if t < k {
        assert(path_cost(g, cs[t as int]) == path_cost(g, cs[0]));
    } else if k < t {
        assert(path_cost(g, cs[k as int]) == path_cost(g, cs[0]));
    }
}

/// The route that a request numbered `count` gets: among the cheapest routes
/// at the head of the routes to `d`, the one at `count` modulo their number.
pub open spec fn chosen_route(g: Map<NodeId, NodeModel>, routes: Seq<Seq<NodeId>>, d: NodeId, count: nat) -> Option<Seq<NodeId>> {
    let cs = candidates(routes, d);
    if cs.len() == 0 {
        None
    } else {
        Some(cs[(count % tie_count(g, cs)) as int])
    }
}

/// The graph of `g2` knows every node of `g1` with the same kind, and
/// every link of `g1`.
pub open spec fn graph_grows(g1: Graph, g2: Graph) -> bool {
    &&& forall|id: NodeId| #[trigger] g1.node_map().contains_key(id) ==> g2.node_map().contains_key(id)
        && crate::node::simple_of(g2.node_map()[id]) == crate::node::simple_of(g1.node_map()[id])
    &&& forall|a: NodeId, b: NodeId| #[trigger] g1.edge(a, b) ==> g2.edge(a, b)
}

proof fn lemma_host_route_kept(g1: Graph, g2: Graph, src: NodeId, p: Seq<NodeId>)
    requires
        graph_grows(g1, g2),
        is_host_route(g1, src, p),
    ensures
        is_host_route(g2, src, p),
{
    assert forall|i: int| 0 <= i < p.len() implies g2.node_map().contains_key(#[trigger] p[i]) by {
        assert(g1.node_map().contains_key(p[i]));
    }
    assert forall|i: int| 0 <= i < p.len() - 1 implies g2.edge(#[trigger] p[i], p[i + 1]) by {
        assert(g1.edge(p[i], p[i + 1]));
    }
    assert(g1.node_map().contains_key(p.last()));
    assert forall|i: int| 0 < i < p.len() - 1 implies (#[trigger] g2.node_map()[p[i]]) is Drone by {
        assert(g1.node_map().contains_key(p[i]));
        assert(g1.node_map()[p[i]] is Drone);
    }
}

/// The merge of what is known of node `id` with the newcomer `n`: an unknown
/// id is added; a node of another kind, an unwanted host or a known host is
/// kept; an unknown host is replaced; a drone gains the newcomer's outcomes.
pub open spec fn merged_map(m: Map<NodeId, NodeModel>, id: NodeId, n: NodeModel) -> Map<NodeId, NodeModel> {
    if !m.contains_key(id) {
        m.insert(id, n)
    } else if !is_other_useful_spec(m[id], n) {
        m
    } else {
        match (m[id], n) {
            (NodeModel::Drone(h1), NodeModel::Drone(h2)) => m.insert(id, NodeModel::Drone(keep_last(h1 + h2))),
            _ => m.insert(id, n),
        }
    }
}

/// `m` with the host `id` running the `Unwanted` application; a drone or an
/// unknown id is left as it is.
pub open spec fn mark_unwanted(m: Map<NodeId, NodeModel>, id: NodeId) -> Map<NodeId, NodeModel> {
    if m.contains_key(id) {
        match m[id] {
            NodeModel::Server(_) => m.insert(id, NodeModel::Server(ApplicationType::Unwanted)),
            NodeModel::Client(_) => m.insert(id, NodeModel::Client(ApplicationType::Unwanted)),
            NodeModel::Drone(_) => m,
        }
    } else {
        m
    }
}

/// Routes that do not step between `a` and `b` in either direction.
pub open spec fn avoids_link(a: NodeId, b: NodeId) -> spec_fn(Seq<NodeId>) -> bool {
    |r: Seq<NodeId>| !has_step(r, a, b) && !has_step(r, b, a)
}

/// Routes that do not end at `d`.
pub open spec fn not_ending_at(d: NodeId) -> spec_fn(Seq<NodeId>) -> bool {
    |r: Seq<NodeId>| !(r.len() > 0 && r.last() == d)
}

proof fn lemma_tie_exists(g: Map<NodeId, NodeModel>, cs: Seq<Seq<NodeId>>, k: nat)
    requires
        1 <= k <= cs.len(),
        forall|j: int| 0 <= j < k ==> #[trigger] path_cost(g, cs[j]) == path_cost(g, cs[0]),
    ensures
        is_tie_len(g, cs, tie_count(g, cs)),
    decreases cs.len() - k,
{
    if k == cs.len() || path_cost(g, cs[k as int]) != path_cost(g, cs[0]) {
        assert(is_tie_len(g, cs, k));
    } else {
        assert forall|j: int| 0 <= j < k + 1 implies #[trigger] path_cost(g, cs[j]) == path_cost(g, cs[0]) by {
        }
        lemma_tie_exists(g, cs, k + 1);
    }
}

/// Round-robin among equally cheap routes: for `k` tied routes to `d`, the
/// requests numbered `c`, `c + 1`, ..., `c + k - 1` get pairwise different
/// routes among them, and every tied route is given to one of them.
pub proof fn lemma_round_robin(g: Map<NodeId, NodeModel>, routes: Seq<Seq<NodeId>>, d: NodeId, c: nat, i: nat, j: nat, t: nat)
    requires
        candidates(routes, d).len() > 0,
        i < tie_count(g, candidates(routes, d)),
        j < tie_count(g, candidates(routes, d)),
        t < tie_count(g, candidates(routes, d)),
    ensures
        1 <= tie_count(g, candidates(routes, d)) <= candidates(routes, d).len(),
        chosen_route(g, routes, d, c + i) == Some(candidates(routes, d)[((c + i) % tie_count(g, candidates(routes, d))) as int]),
        i != j ==> (c + i) % tie_count(g, candidates(routes, d)) != (c + j) % tie_count(g, candidates(routes, d)),
        exists|x: nat| x < tie_count(g, candidates(routes, d)) && #[trigger] ((c + x) % tie_count(g, candidates(routes, d))) == t,
{
    let cs = candidates(routes, d);
    lemma_tie_exists(g, cs, 1);
    let k = tie_count(g, cs);
    let ki = k as int;
    if i != j {
        lemma_fundamental_div_mod((c + i) as int, ki);
        lemma_fundamental_div_mod((c + j) as int, ki);
        let qi = (c + i) as int / ki;
        let qj = (c + j) as int / ki;
        if (c + i) % k == (c + j) % k {
            assert(i - j == ki * (qi - qj)) by (nonlinear_arith)
                requires
                    (c + i) as int == ki * qi + (c + i) as int % ki,
                    (c + j) as int == ki * qj + (c + j) as int % ki,
                    (c + i) as int % ki == (c + j) as int % ki,
            ;
            assert(false) by (nonlinear_arith)
                requires
                    i - j == ki * (qi - qj),
                    i != j,
                    i < ki,
                    j < ki,
                    ki > 0,
            ;
        }
    }
    lemma_fundamental_div_mod(c as int, ki);
    let q = c as int / ki;
    let a = c as int % ki;
    let x: nat = if t >= a { (t - a) as nat } else { (t + ki - a) as nat };
    if t >= a {
        lemma_fundamental_div_mod_converse((c + x) as int, ki, q, t as int);
    } else {
        assert((c + x) as int == (q + 1) * ki + t) by (nonlinear_arith)
            requires
                c as int == ki * q + a,
                x == t + ki - a,
        ;
        lemma_fundamental_div_mod_converse((c + x) as int, ki, q + 1, t as int);
    }
    assert((c + x) % k == t);
}

/// The links of `g` as ordered pairs, both directions.
pub open spec fn edge_set(g: Graph) -> Set<(NodeId, NodeId)> {
    Set::new(|p: (NodeId, NodeId)| g.edge(p.0, p.1))
}

/// What a router holds: its nodes, its links and its routes.
pub type RouterState = (Map<NodeId, NodeModel>, Set<(NodeId, NodeId)>, Seq<Seq<NodeId>>);

/// The effect of one topology update on a router's state.
pub open spec fn apply_info(st: RouterState, info: InfoModel) -> RouterState {
    match info {
        InfoModel::AddNode(id, m) => (merged_map(st.0, id, m), st.1, st.2),
        InfoModel::AddEdge(a, b) => (st.0, if a != b { st.1.insert((a, b)).insert((b, a)) } else { st.1 }, st.2),
        InfoModel::RemoveEdge(a, b) => (st.0, st.1.remove((a, b)).remove((b, a)), st.2.filter(avoids_link(a, b))),
    }
}

/// The effect of a list of updates, applied in order.
pub open spec fn apply_infos(st: RouterState, infos: Seq<InfoModel>) -> RouterState
    decreases infos.len(),
{
    if infos.len() == 0 {
        st
    } else {
        apply_info(apply_infos(st, infos.drop_last()), infos.last())
    }
}

/// When some route reaches `d`, at least one route ties for cheapest.
pub proof fn lemma_ties(g: Map<NodeId, NodeModel>, routes: Seq<Seq<NodeId>>, d: NodeId)
    requires
        candidates(routes, d).len() > 0,
    ensures
        1 <= tie_count(g, candidates(routes, d)) <= candidates(routes, d).len(),
{
    lemma_tie_exists(g, candidates(routes, d), 1);
}

/// Each route to `d` is a stored route.
pub proof fn lemma_candidates_are_routes(routes: Seq<Seq<NodeId>>, d: NodeId, i: int)
    requires
        0 <= i < candidates(routes, d).len(),
    ensures
        routes.contains(candidates(routes, d)[i]),
        candidates(routes, d)[i].len() > 0 && candidates(routes, d)[i].last() == d,
{
    lemma_filter_members(routes, ends_at(d));
}

pub struct SourceRouter {
    graph: Graph,
    source_id: NodeId,
    routes: Vec<Route>,
    request_count: usize,
}

impl SourceRouter {
    pub closed spec fn spec_graph(&self) -> Graph {
        self.graph
    }

    pub closed spec fn spec_source(&self) -> NodeId {
        self.source_id
    }

    pub closed spec fn spec_routes(&self) -> Seq<Seq<NodeId>> {
        route_views(self.routes@)
    }

    pub closed spec fn spec_request_count(&self) -> nat {
        self.request_count as nat
    }

    /// The graph knows this host, and every stored route is a host route
    /// from it.
    pub open spec fn wf(&self) -> bool {
        &&& self.spec_graph().wf()
        &&& self.spec_graph().node_map().contains_key(self.spec_source())
        &&& is_host(self.spec_graph().node_map()[self.spec_source()])
        &&& forall|i: int| 0 <= i < self.spec_routes().len()
            ==> is_host_route(self.spec_graph(), self.spec_source(), #[trigger] self.spec_routes()[i])
    }

    proof fn lemma_grown(&self, g2: Graph)
        requires
            self.wf(),
            graph_grows(self.graph, g2),
            g2.wf(),
        ensures
            forall|i: int| 0 <= i < self.spec_routes().len() ==> is_host_route(g2, self.source_id, #[trigger] self.spec_routes()[i]),
            g2.node_map().contains_key(self.source_id),
            is_host(g2.node_map()[self.source_id]),
    {
        assert forall|i: int| 0 <= i < self.spec_routes().len() implies is_host_route(g2, self.source_id, #[trigger] self.spec_routes()[i]) by {
            lemma_host_route_kept(self.graph, g2, self.source_id, self.spec_routes()[i]);
        }
        assert(self.graph.node_map().contains_key(self.source_id));
    }

    pub proof fn lemma_request_count_bound(&self)
        ensures
            self.spec_request_count() <= usize::MAX,
    {
    }

    /// A router for the host `source`, which knows only itself.
    pub fn new(source: Node) -> (r: Self)
        requires
            source.node_type.wf(),
            is_host(source.node_type@),
        ensures
            r.wf(),
            r.spec_source() == source.id,
            r.spec_graph().node_map() == Map::<NodeId, NodeModel>::empty().insert(source.id, source.node_type@),
            forall|a: NodeId, b: NodeId| !#[trigger] r.spec_graph().edge(a, b),
            r.spec_routes() == Seq::<Seq<NodeId>>::empty(),
            r.spec_request_count() == 0,
    {
        let mut graph = Graph::new();
        let source_id = source.id;
        graph.insert_node(source);
        let r = SourceRouter { graph, source_id, routes: Vec::new(), request_count: 0 };
        assert(r.spec_routes() =~= Seq::<Seq<NodeId>>::empty());
        r
    }

    /// The graph as this router knows it.
    pub fn graph(&self) -> (r: &Graph)
        ensures
            *r == self.spec_graph(),
    {
        &self.graph
    }

    /// A header for the route that this request gets (see `chosen_route`);
    /// each answered request advances the request counter, wrapping on
    /// overflow.
    pub fn get_best_route(&mut self, destination: NodeId) -> (r: Option<SourceRoutingHeader>)
        requires
            old(self).wf(),
        ensures
            final(self).wf(),
            final(self).spec_graph() == old(self).spec_graph(),
            final(self).spec_source() == old(self).spec_source(),
            final(self).spec_routes() == old(self).spec_routes(),
            match r {
                Some(h) => chosen_route(old(self).spec_graph().node_map(), old(self).spec_routes(), destination, old(self).spec_request_count())
                    == Some(h.hops@) && h.hop_index == 0
                    && final(self).spec_request_count() == (if old(self).spec_request_count() == usize::MAX { 0 } else { old(self).spec_request_count() + 1 }),
                None => chosen_route(old(self).spec_graph().node_map(), old(self).spec_routes(), destination, old(self).spec_request_count()) is None
                    && final(self).spec_request_count() == old(self).spec_request_count(),
            },
    {
        let ghost g = self.graph.node_map();
        let ghost all = self.spec_routes();
        let mut cands: Vec<Route> = Vec::new();
        let mut i: usize = 0;
        while i < self.routes.len()
            invariant
                self.wf(),
                all == self.spec_routes(),
                i <= self.routes@.len(),
                route_views(cands@) == all.subrange(0, i as int).filter(ends_at(destination)),
            decreases self.routes@.len() - i,
        {
            if self.routes[i].destination() == Some(destination) {
                cands.push(self.routes[i].clone());
            }
            proof {
                assert(all[i as int] == self.routes@[i as int]@);
                lemma_filter_push(all, i as int, ends_at(destination));
                assert(route_views(cands@) =~= all.subrange(0, i + 1).filter(ends_at(destination)));
            }
            i = i + 1;
        }
        proof {
            assert(all.subrange(0, i as int) =~= all);
        }
        let ghost cs = candidates(all, destination);
        if cands.len() == 0 {
            return None;
        }
        proof {
            lemma_filter_members(all, ends_at(destination));
            assert forall|k: int| 0 <= k < cands@.len() implies is_host_route(self.graph, self.source_id, #[trigger] cands@[k]@) by {
                assert(route_views(cands@)[k] == cands@[k]@);
                assert(all.contains(cs[k]));
            }
        }
        let min_cost = cands[0].cost(&self.graph);
        let mut k: usize = 1;
        while k < cands.len() && cands[k].cost(&self.graph) == min_cost
            invariant
                self.wf(),
                route_views(cands@) == cs,
                forall|x: int| 0 <= x < cands@.len() ==> is_host_route(self.graph, self.source_id, #[trigger] cands@[x]@),
                min_cost == path_cost(g, cs[0]),
                g == self.graph.node_map(),
                1 <= k <= cands@.len(),
                forall|j: int| 0 <= j < k ==> #[trigger] path_cost(g, cs[j]) == path_cost(g, cs[0]),
            decreases cands@.len() - k,
        {
            proof {
                assert(route_views(cands@)[k as int] == cands@[k as int]@);
            }
            k = k + 1;
        }
        proof {
            if k < cands.len() {
                assert(route_views(cands@)[k as int] == cands@[k as int]@);
            }
            assert(is_tie_len(g, cs, k as nat));
            lemma_tie_unique(g, cs, k as nat);
        }
        let pick = self.request_count % k;
        let header = cands[pick].to_source_routing_header();
        proof {
            assert(route_views(cands@)[pick as int] == cands@[pick as int]@);
        }
        self.request_count = if self.request_count == usize::MAX { 0 } else { self.request_count + 1 };
        Some(header)
    }

    /// Whether some stored route ends at `destination`.
    pub fn can_reach(&self, destination: NodeId) -> (r: bool)
        ensures
            r == exists|i: int| 0 <= i < self.spec_routes().len() && #[trigger] self.spec_routes()[i].len() > 0
                && self.spec_routes()[i].last() == destination,
    {
        let mut i: usize = 0;
        while i < self.routes.len()
            invariant
                i <= self.routes@.len(),
                forall|k: int| 0 <= k < i ==> !(#[trigger] self.spec_routes()[k].len() > 0 && self.spec_routes()[k].last() == destination),
            decreases self.routes@.len() - i,
        {
            proof {
                assert(self.spec_routes()[i as int] == self.routes@[i as int]@);
            }
            if self.routes[i].destination() == Some(destination) {
                return true;
            }
            i = i + 1;
        }
        false
    }

    /// The destinations of the stored routes, each once.
    pub fn reachable_servers(&self) -> (r: Vec<NodeId>)
        ensures
            r@.no_duplicates(),
            forall|d: NodeId| #[trigger] r@.contains(d) <==> exists|i: int| 0 <= i < self.spec_routes().len()
                && #[trigger] self.spec_routes()[i].len() > 0 && self.spec_routes()[i].last() == d,
    {
        let mut out: Vec<NodeId> = Vec::new();
        let mut i: usize = 0;
        while i < self.routes.len()
            invariant
                i <= self.routes@.len(),
                out@.no_duplicates(),
                forall|d: NodeId| #[trigger] out@.contains(d) <==> exists|k: int| 0 <= k < i
                    && #[trigger] self.spec_routes()[k].len() > 0 && self.spec_routes()[k].last() == d,
            decreases self.routes@.len() - i,
        {
            proof {
                assert(self.spec_routes()[i as int] == self.routes@[i as int]@);
            }
            let ghost before = out@;
            if let Some(d) = self.routes[i].destination() {
                let mut seen = false;
                let mut j: usize = 0;
                while j < out.len()
                    invariant
                        j <= out@.len(),
                        seen == exists|x: int| 0 <= x < j && out@[x] == d,
                    decreases out@.len() - j,
                {
                    if out[j] == d {
                        seen = true;
                    }
                    j = j + 1;
                }
                if !seen {
                    out.push(d);
                }
            }
            proof {
                assert forall|d: NodeId| #[trigger] out@.contains(d) <==> exists|k: int| 0 <= k < i + 1
                    && #[trigger] self.spec_routes()[k].len() > 0 && self.spec_routes()[k].last() == d by {
                    if before.contains(d) {
                        let w = choose|w: int| 0 <= w < before.len() && before[w] == d;
                        assert(out@[w] == d);
                    }
                    if out@.contains(d) && !before.contains(d) {
                        let w = choose|w: int| 0 <= w < out@.len() && out@[w] == d;
                        assert(w == before.len());
                    }
                    if self.spec_routes()[i as int].len() > 0 && self.spec_routes()[i as int].last() == d && !before.contains(d) {
                        assert(out@[out@.len() - 1] == d);
                    }
                }
            }
            i = i + 1;
        }
        out
    }

    pub open spec fn spec_state(&self) -> RouterState {
        (self.spec_graph().node_map(), edge_set(self.spec_graph()), self.spec_routes())
    }

    /// Applies `infos` in order.
    pub fn apply_information(&mut self, infos: &Vec<Information>)
        requires
            old(self).wf(),
            forall|k: int| 0 <= k < infos@.len() ==> (#[trigger] infos@[k] matches Information::AddNode(n) ==> n.node_type.wf()),
        ensures
            final(self).wf(),
            final(self).spec_source() == old(self).spec_source(),
            final(self).spec_request_count() == old(self).spec_request_count(),
            final(self).spec_state() == apply_infos(old(self).spec_state(), info_models(infos@)),
    {
        let ghost st0 = self.spec_state();
        let ghost ms = info_models(infos@);
        let mut i: usize = 0;
        while i < infos.len()
            invariant
                self.wf(),
                self.spec_source() == old(self).spec_source(),
                self.spec_request_count() == old(self).spec_request_count(),
                i <= infos@.len(),
                ms == info_models(infos@),
                forall|k: int| 0 <= k < infos@.len() ==> (#[trigger] infos@[k] matches Information::AddNode(n) ==> n.node_type.wf()),
                self.spec_state() == apply_infos(st0, ms.subrange(0, i as int)),
            decreases infos@.len() - i,
        {
            let ghost before = self.spec_state();
            match &infos[i] {
                Information::AddNode(node) => {
                    self.add_node(node.clone());
                },
                Information::AddEdge(a, b) => {
                    self.add_edge(*a, *b);
                    proof {
                        assert(edge_set(self.graph) =~= (if *a != *b { before.1.insert((*a, *b)).insert((*b, *a)) } else { before.1 }));
                    }
                },
                Information::RemoveEdge(a, b) => {
                    self.remove_edge(*a, *b);
                    proof {
                        assert(edge_set(self.graph) =~= before.1.remove((*a, *b)).remove((*b, *a)));
                    }
                },
            }
            proof {
                assert(ms.subrange(0, i + 1).drop_last() =~= ms.subrange(0, i as int));
                assert(ms[i as int] == infos@[i as int]@);
                assert(self.spec_state() == apply_info(before, ms[i as int]));
            }
            i = i + 1;
        }
        proof {
            assert(ms.subrange(0, i as int) =~= ms);
        }
    }

    /// Learns from a received packet (see `packet_infos`).
    pub fn update_graph(&mut self, packet: &Packet)
        requires
            old(self).wf(),
        ensures
            final(self).wf(),
            final(self).spec_source() == old(self).spec_source(),
            final(self).spec_request_count() == old(self).spec_request_count(),
            final(self).spec_state() == apply_infos(
                old(self).spec_state(),
                packet_infos(*packet, old(self).spec_graph().node_map()[old(self).spec_source()]),
            ),
    {
        let source = self.graph.get(self.source_id).unwrap().clone();
        proof {
            self.graph.lemma_node_wf(self.source_id);
        }
        let infos = get_information(packet, &source);
        self.apply_information(&infos);
    }

    /// Every stored route has distinct ids, starts at this host, ends at a
    /// host, holds exactly two hosts (its ends) and has a non-negative cost.
    pub proof fn lemma_stored_routes_well_formed(&self, i: int)
        requires
            self.wf(),
            0 <= i < self.spec_routes().len(),
        ensures
            self.spec_routes()[i].no_duplicates(),
            self.spec_routes()[i][0] == self.spec_source(),
            is_host(self.spec_graph().node_map()[self.spec_routes()[i][0]]),
            is_host(self.spec_graph().node_map()[self.spec_routes()[i].last()]),
            self.spec_routes()[i].len() >= 2,
            forall|j: int| 0 < j < self.spec_routes()[i].len() - 1
                ==> (#[trigger] self.spec_graph().node_map()[self.spec_routes()[i][j]]) is Drone,
            path_cost(self.spec_graph().node_map(), self.spec_routes()[i]) >= 0,
    {
        assert(is_host_route(self.spec_graph(), self.spec_source(), self.spec_routes()[i]));
    }

    /// Links `from` and `to`.
    pub fn add_edge(&mut self, from: NodeId, to: NodeId)
        requires
            old(self).wf(),
        ensures
            final(self).wf(),
            final(self).spec_graph().node_map() == old(self).spec_graph().node_map(),
            forall|x: NodeId, y: NodeId| #[trigger] final(self).spec_graph().edge(x, y) == (old(self).spec_graph().edge(x, y)
                || (from != to && ((x == from && y == to) || (x == to && y == from)))),
            final(self).spec_source() == old(self).spec_source(),
            final(self).spec_routes() == old(self).spec_routes(),
            final(self).spec_request_count() == old(self).spec_request_count(),
    {
        let ghost before = *self;
        self.graph.add_undirected_edge(from, to);
        proof {
            before.lemma_grown(self.graph);
            assert(self.spec_routes() == before.spec_routes());
        }
    }

    /// Unlinks `from` and `to`, and drops every route that steps between them.
    pub fn remove_edge(&mut self, from: NodeId, to: NodeId)
        requires
            old(self).wf(),
        ensures
            final(self).wf(),
            final(self).spec_graph().node_map() == old(self).spec_graph().node_map(),
            forall|x: NodeId, y: NodeId| #[trigger] final(self).spec_graph().edge(x, y) == (old(self).spec_graph().edge(x, y)
                && !((x == from && y == to) || (x == to && y == from))),
            final(self).spec_source() == old(self).spec_source(),
            final(self).spec_routes() == old(self).spec_routes().filter(avoids_link(from, to)),
            final(self).spec_request_count() == old(self).spec_request_count(),
    {
        let ghost before = *self;
        let ghost all = self.spec_routes();
        self.graph.remove_undirected_edge(from, to);
        let mut kept: Vec<Route> = Vec::new();
        let mut i: usize = 0;
        while i < self.routes.len()
            invariant
                all == self.spec_routes(),
                i <= self.routes@.len(),
                route_views(kept@) == all.subrange(0, i as int).filter(avoids_link(from, to)),
            decreases self.routes@.len() - i,
        {
            if !self.routes[i].contains_edge(from, to) && !self.routes[i].contains_edge(to, from) {
                kept.push(self.routes[i].clone());
            }
            proof {
                assert(all[i as int] == self.routes@[i as int]@);
                lemma_filter_push(all, i as int, avoids_link(from, to));
                assert(route_views(kept@) =~= all.subrange(0, i + 1).filter(avoids_link(from, to)));
            }
            i = i + 1;
        }
        self.routes = kept;
        proof {
            assert(all.subrange(0, i as int) =~= all);
            lemma_filter_members(all, avoids_link(from, to));
            assert forall|k: int| 0 <= k < self.spec_routes().len() implies is_host_route(self.graph, self.source_id, #[trigger] self.spec_routes()[k]) by {
                let p = self.spec_routes()[k];
                assert(all.contains(p));
                let w = choose|w: int| 0 <= w < all.len() && all[w] == p;
                assert(is_host_route(before.graph, self.source_id, all[w]));
                assert forall|x: int| 0 <= x < p.len() - 1 implies self.graph.edge(#[trigger] p[x], p[x + 1]) by {
                    assert(before.graph.edge(p[x], p[x + 1]));
                    assert(!has_step(p, from, to));
                    assert(!has_step(p, to, from));
                }
            }
        }
    }

    /// Merges what `node` tells into the graph (see `merged_map`).
    pub fn add_node(&mut self, node: Node)
        requires
            old(self).wf(),
            node.node_type.wf(),
        ensures
            final(self).wf(),
            final(self).spec_graph().node_map() == merged_map(old(self).spec_graph().node_map(), node.id, node.node_type@),
            forall|x: NodeId, y: NodeId| #[trigger] final(self).spec_graph().edge(x, y) == old(self).spec_graph().edge(x, y),
            final(self).spec_source() == old(self).spec_source(),
            final(self).spec_routes() == old(self).spec_routes(),
            final(self).spec_request_count() == old(self).spec_request_count(),
    {
        let ghost before = *self;
        let id = node.id;
        let (known, useful) = match self.graph.get(id) {
            Some(current) => (true, current.is_other_useful(&node)),
            None => (false, false),
        };
        if !known {
            self.graph.insert_node(node);
        } else if useful {
            let current_is_drone = self.graph.get(id).unwrap().node_type.to_simple() == crate::packet::SimpleNodeType::Drone;
            if current_is_drone {
                match node.node_type {
                    NodeType::Drone(d) => {
                        self.graph.merge_drone(id, d);
                    },
                    _ => {},
                }
            } else {
                self.graph.insert_node(node);
            }
        }
        proof {
            before.lemma_grown(self.graph);
            assert(self.spec_routes() == before.spec_routes());
        }
    }

    /// Marks the host `node_id` as unwanted and drops every route to it.
    pub fn unwanted_node(&mut self, node_id: NodeId)
        requires
            old(self).wf(),
        ensures
            final(self).wf(),
            final(self).spec_graph().node_map() == mark_unwanted(old(self).spec_graph().node_map(), node_id),
            forall|x: NodeId, y: NodeId| #[trigger] final(self).spec_graph().edge(x, y) == old(self).spec_graph().edge(x, y),
            final(self).spec_source() == old(self).spec_source(),
            final(self).spec_routes() == old(self).spec_routes().filter(not_ending_at(node_id)),
            final(self).spec_request_count() == old(self).spec_request_count(),
    {
        let ghost before = *self;
        let ghost all = self.spec_routes();
        self.graph.set_application(node_id, ApplicationType::Unwanted);
        proof {
            before.lemma_grown(self.graph);
        }
        let mut kept: Vec<Route> = Vec::new();
        let mut i: usize = 0;
        while i < self.routes.len()
            invariant
                all == self.spec_routes(),
                i <= self.routes@.len(),
                route_views(kept@) == all.subrange(0, i as int).filter(not_ending_at(node_id)),
            decreases self.routes@.len() - i,
        {
            if self.routes[i].destination() != Some(node_id) {
                kept.push(self.routes[i].clone());
            }
            proof {
                assert(all[i as int] == self.routes@[i as int]@);
                lemma_filter_push(all, i as int, not_ending_at(node_id));
                assert(route_views(kept@) =~= all.subrange(0, i + 1).filter(not_ending_at(node_id)));
            }
            i = i + 1;
        }
        self.routes = kept;
        proof {
            assert(all.subrange(0, i as int) =~= all);
            lemma_filter_members(all, not_ending_at(node_id));
            assert forall|k: int| 0 <= k < self.spec_routes().len() implies is_host_route(self.graph, self.source_id, #[trigger] self.spec_routes()[k]) by {
                assert(all.contains(self.spec_routes()[k]));
            }
        }
    }

    /// Forgets every node but this host, every link and every route.
    pub fn forget_topology(&mut self)
        requires
            old(self).wf(),
        ensures
            final(self).wf(),
            final(self).spec_graph().node_map() == Map::<NodeId, NodeModel>::empty().insert(
                old(self).spec_source(),
                old(self).spec_graph().node_map()[old(self).spec_source()],
            ),
            forall|x: NodeId, y: NodeId| !#[trigger] final(self).spec_graph().edge(x, y),
            final(self).spec_source() == old(self).spec_source(),
            final(self).spec_routes() == Seq::<Seq<NodeId>>::empty(),
            final(self).spec_request_count() == old(self).spec_request_count(),
    {
        let source = self.graph.get(self.source_id).unwrap().clone();
        proof {
            self.graph.lemma_node_wf(self.source_id);
        }
        self.graph.reset_to(source);
        self.routes = Vec::new();
        proof {
            assert(self.spec_routes() =~= Seq::<Seq<NodeId>>::empty());
        }
    }

    /// Recomputes the route table from the graph and returns its size.
    pub fn calculate_routes(&mut self) -> (r: usize)
        requires
            old(self).wf(),
        ensures
            final(self).wf(),
            final(self).spec_graph() == old(self).spec_graph(),
            final(self).spec_source() == old(self).spec_source(),
            final(self).spec_request_count() == old(self).spec_request_count(),
            r == final(self).spec_routes().len(),
            forall|i: int| 0 <= i < r ==> is_useful_route(final(self).spec_graph(), final(self).spec_source(), #[trigger] final(self).spec_routes()[i]),
            sorted_by_cost(final(self).spec_graph().node_map(), final(self).spec_routes()),
            forall|p: Seq<NodeId>| #[trigger] is_useful_route(final(self).spec_graph(), final(self).spec_source(), p)
                ==> final(self).spec_routes().contains(p),
            final(self).spec_routes().no_duplicates(),
            forall|a: int, b: int| 0 <= a < b < r && #[trigger] path_cost(final(self).spec_graph().node_map(), final(self).spec_routes()[a])
                == #[trigger] path_cost(final(self).spec_graph().node_map(), final(self).spec_routes()[b])
                ==> final(self).spec_routes()[a].len() <= final(self).spec_routes()[b].len(),
    {
        let all = enumerate_routes(&self.graph, self.source_id);
        let source_node = self.graph.get(self.source_id).unwrap();
        let ghost g = self.graph;
        let mut sorted: Vec<(u64, Route)> = Vec::new();
        let mut i: usize = 0;
        while i < all.len()
            invariant
                g == self.graph,
                g.wf(),
                source_node.id == self.source_id,
                source_node.node_type@ == g.node_map()[self.source_id],
                i <= all@.len(),
                forall|k: int| 0 <= k < all@.len() ==> is_path_from(g, self.source_id, #[trigger] all@[k]@),
                forall|k: int| 0 <= k < sorted@.len() ==> is_useful_route(g, self.source_id, #[trigger] sorted@[k].1@)
                    && sorted@[k].0 == path_cost(g.node_map(), sorted@[k].1@),
                cost_sorted(sorted@),
                distinct_entries(sorted@),
                ties_by_length(sorted@),
                forall|a: int, b: int| 0 <= a < b < all@.len() ==> (#[trigger] all@[a])@.len() <= (#[trigger] all@[b])@.len(),
                i == 0 ==> sorted@.len() == 0,
                i > 0 ==> forall|k: int| 0 <= k < sorted@.len() ==> (#[trigger] sorted@[k]).1@.len() <= all@[i - 1]@.len(),
                forall|k: int| 0 <= k < i && is_useful_route(g, self.source_id, #[trigger] all@[k]@)
                    ==> exists|j: int| 0 <= j < sorted@.len() && sorted@[j].1@ == all@[k]@,
            decreases all@.len() - i,
        {
            let route = &all[i];
            let ghost sorted_before = sorted@;
            if is_storable(&self.graph, source_node, route) && !holds_route(&sorted, route) {
                proof {
                    if i > 0 {
                        assert(all@[i - 1]@.len() <= all@[i as int]@.len());
                    }
                }
                let c = route.cost(&self.graph);
                let ghost before = sorted@;
                let copy = route.clone();
                let ghost item = (c, copy);
                insert_sorted(&mut sorted, c, copy);
                proof {
                    assert forall|k: int| 0 <= k < sorted@.len() implies is_useful_route(g, self.source_id, #[trigger] sorted@[k].1@)
                        && sorted@[k].0 == path_cost(g.node_map(), sorted@[k].1@) by {
                        if sorted@[k] != item {
                            assert(before.contains(sorted@[k]));
                            let w = choose|w: int| 0 <= w < before.len() && before[w] == sorted@[k];
                            assert(is_useful_route(g, self.source_id, before[w].1@));
                        }
                    }
                    let wi = choose|w: int| 0 <= w < sorted@.len() && sorted@[w] == item;
                    assert(sorted@[wi].1@ == all@[i as int]@);
                }
            }
            proof {
                assert forall|k: int| 0 <= k < sorted@.len() implies (#[trigger] sorted@[k]).1@.len() <= all@[i as int]@.len() by {
                    if sorted@ != sorted_before {
                        if sorted@[k].1@ != all@[i as int]@ {
                            assert(sorted_before.contains(sorted@[k]) || sorted@[k].1@ == all@[i as int]@);
                            if sorted_before.contains(sorted@[k]) {
                                let w = choose|w: int| 0 <= w < sorted_before.len() && sorted_before[w] == sorted@[k];
                                assert(sorted_before[w].1@.len() <= all@[i - 1]@.len());
                                assert(all@[i - 1]@.len() <= all@[i as int]@.len());
                            }
                        }
                    } else if i > 0 {
                        assert(all@[i - 1]@.len() <= all@[i as int]@.len());
                    }
                }
                assert forall|k: int| 0 <= k < i + 1 && is_useful_route(g, self.source_id, #[trigger] all@[k]@)
                    implies exists|j: int| 0 <= j < sorted@.len() && sorted@[j].1@ == all@[k]@ by {
                    if k == i && sorted@ == sorted_before {
                        assert(exists|j: int| 0 <= j < sorted@.len() && (#[trigger] sorted@[j]).1@ == all@[k]@);
                    }
                    if k < i {
                        let j = choose|j: int| 0 <= j < sorted_before.len() && sorted_before[j].1@ == all@[k]@;
                        if sorted@ != sorted_before {
                            assert(sorted@.contains(sorted_before[j]));
                            let j2 = choose|j2: int| 0 <= j2 < sorted@.len() && sorted@[j2] == sorted_before[j];
                            assert(sorted@[j2].1@ == all@[k]@);
                        } else {
                            assert(sorted@[j].1@ == all@[k]@);
                        }
                    }
                }
            }
            i = i + 1;
        }
        let mut routes: Vec<Route> = Vec::new();
        let mut k: usize = 0;
        while k < sorted.len()
            invariant
                k <= sorted@.len(),
                routes@.len() == k,
                forall|x: int| 0 <= x < k ==> (#[trigger] routes@[x])@ == sorted@[x].1@,
            decreases sorted@.len() - k,
        {
            routes.push(sorted[k].1.clone());
            k = k + 1;
        }
        self.routes = routes;
        proof {
            assert forall|a: int| 0 <= a < self.spec_routes().len() implies #[trigger] self.spec_routes()[a] == sorted@[a].1@ by {
            }
            assert forall|a: int, b: int| 0 <= a < self.spec_routes().len() && 0 <= b < self.spec_routes().len() && a != b
                implies self.spec_routes()[a] != self.spec_routes()[b] by {
                if a < b {
                    assert(sorted@[a].1@ != sorted@[b].1@);
                } else {
                    assert(sorted@[b].1@ != sorted@[a].1@);
                }
            }
            assert forall|a: int, b: int| 0 <= a < b < self.spec_routes().len() && #[trigger] path_cost(g.node_map(), self.spec_routes()[a])
                == #[trigger] path_cost(g.node_map(), self.spec_routes()[b])
                implies self.spec_routes()[a].len() <= self.spec_routes()[b].len() by {
                assert(sorted@[a].0 == sorted@[b].0);
            }
            assert forall|p: Seq<NodeId>| #[trigger] is_useful_route(g, self.source_id, p) implies self.spec_routes().contains(p) by {
                assert(is_path_from(g, self.source_id, p));
                assert(route_views(all@).contains(p));
                let k = choose|k: int| 0 <= k < route_views(all@).len() && route_views(all@)[k] == p;
                assert(all@[k]@ == p);
                let j = choose|j: int| 0 <= j < sorted@.len() && sorted@[j].1@ == all@[k]@;
                assert(self.spec_routes()[j] == p);
            }
            assert forall|a: int, b: int| 0 <= a < b < self.spec_routes().len() implies #[trigger] path_cost(g.node_map(), self.spec_routes()[a]) <= #[trigger] path_cost(g.node_map(), self.spec_routes()[b]) by {
                assert(self.spec_routes()[a] == sorted@[a].1@);
                assert(self.spec_routes()[b] == sorted@[b].1@);
                assert(sorted@[a].0 <= sorted@[b].0);
            }
        }
        self.routes.len()
    }
}

} // verus!
