//! The topology graph: known nodes keyed by id and the undirected links
//! between them.

use vstd::prelude::*;
use crate::node::{ApplicationType, Drone, Node, NodeId, NodeModel, NodeType, keep_last, model_wf, node_cost};

verus! {

/// An undirected simple graph of nodes keyed by id.
pub struct Graph {
    nodes: Vec<Node>,
    edges: Vec<(NodeId, NodeId)>,
}

impl Graph {
    /// Ids are unique, nodes are well formed and no link joins a node to itself.
    pub closed spec fn wf(&self) -> bool {
        &&& forall|i: int, j: int|
            0 <= i < j < self.nodes@.len() ==> self.nodes@[i].id != self.nodes@[j].id
        &&& forall|i: int| 0 <= i < self.nodes@.len() ==> #[trigger] self.nodes@[i].node_type.wf()
        &&& forall|i: int| 0 <= i < self.edges@.len() ==> #[trigger] self.edges@[i].0 != self.edges@[i].1
    }

    closed spec fn has_node(&self, id: NodeId) -> bool {
        exists|i: int| 0 <= i < self.nodes@.len() && #[trigger] self.nodes@[i].id == id
    }

    closed spec fn model_of(&self, id: NodeId) -> NodeModel {
        self.nodes@[choose|i: int| 0 <= i < self.nodes@.len() && #[trigger] self.nodes@[i].id == id].node_type@
    }

    /// The known nodes, by id.
    pub closed spec fn node_map(&self) -> Map<NodeId, NodeModel> {
        Map::new(|id: NodeId| self.has_node(id), |id: NodeId| self.model_of(id))
    }

    /// Whether `a` and `b` are linked.
    pub closed spec fn edge(&self, a: NodeId, b: NodeId) -> bool {
        exists|i: int| 0 <= i < self.edges@.len() && (#[trigger] self.edges@[i] == (a, b) || self.edges@[i] == (b, a))
    }

    proof fn lemma_model_at(&self, k: int)
        requires
            self.wf(),
            0 <= k < self.nodes@.len(),
        ensures
            self.node_map().contains_key(self.nodes@[k].id),
            self.node_map()[self.nodes@[k].id] == self.nodes@[k].node_type@,
    {
        let id = self.nodes@[k].id;
        assert(self.has_node(id));
        let c = choose|i: int| 0 <= i < self.nodes@.len() && #[trigger] self.nodes@[i].id == id;
        if c != k {
            if c < k {
                assert(self.nodes@[c].id != self.nodes@[k].id);
            } else {
                assert(self.nodes@[k].id != self.nodes@[c].id);
            }
        }
    }

    /// Links are symmetric, and no node is linked to itself.
    pub proof fn lemma_edge_facts(&self, a: NodeId, b: NodeId)
        requires
            self.wf(),
        ensures
            self.edge(a, b) == self.edge(b, a),
            !self.edge(a, a),
    {
        if self.edge(a, b) {
            let i = choose|i: int| 0 <= i < self.edges@.len() && (#[trigger] self.edges@[i] == (a, b) || self.edges@[i] == (b, a));
            assert(self.edges@[i] == (b, a) || self.edges@[i] == (a, b));
        }
        if self.edge(b, a) {
            let i = choose|i: int| 0 <= i < self.edges@.len() && (#[trigger] self.edges@[i] == (b, a) || self.edges@[i] == (a, b));
            assert(self.edges@[i] == (a, b) || self.edges@[i] == (b, a));
        }
        if self.edge(a, a) {
            let i = choose|i: int| 0 <= i < self.edges@.len() && (#[trigger] self.edges@[i] == (a, a) || self.edges@[i] == (a, a));
            assert(self.edges@[i].0 != self.edges@[i].1);
        }
    }

    /// Every known node is well formed.
    pub proof fn lemma_node_wf(&self, id: NodeId)
        requires
            self.wf(),
            self.node_map().contains_key(id),
        ensures
            model_wf(self.node_map()[id]),
    {
        assert(self.has_node(id));
        let k = choose|i: int| 0 <= i < self.nodes@.len() && #[trigger] self.nodes@[i].id == id;
        self.lemma_model_at(k);
        assert(self.nodes@[k].node_type.wf());
    }

    pub fn new() -> (r: Self)
        ensures
            r.wf(),
            r.node_map() == Map::<NodeId, NodeModel>::empty(),
            forall|a: NodeId, b: NodeId| !#[trigger] r.edge(a, b),
    {
        let r = Graph { nodes: Vec::new(), edges: Vec::new() };
        assert(r.node_map() =~= Map::<NodeId, NodeModel>::empty());
        r
    }

    fn find(&self, id: NodeId) -> (r: Option<usize>)
        requires
            self.wf(),
        ensures
            match r {
                Some(k) => k < self.nodes@.len() && self.nodes@[k as int].id == id,
                None => !self.has_node(id),
            },
            r is Some <==> self.node_map().contains_key(id),
    {
        let mut i: usize = 0;
        while i < self.nodes.len()
            invariant
                i <= self.nodes@.len(),
                forall|k: int| 0 <= k < i ==> #[trigger] self.nodes@[k].id != id,
            decreases self.nodes@.len() - i,
        {
            if self.nodes[i].id == id {
                return Some(i);
            }
            i = i + 1;
        }
        None
    }

    pub fn contains(&self, id: NodeId) -> (r: bool)
        requires
            self.wf(),
        ensures
            r == self.node_map().contains_key(id),
    {
        self.find(id).is_some()
    }

    pub fn get(&self, id: NodeId) -> (r: Option<&Node>)
        requires
            self.wf(),
        ensures
            match r {
                Some(n) => self.node_map().contains_key(id) && n.id == id && n.node_type@
                    == self.node_map()[id],
                None => !self.node_map().contains_key(id),
            },
    {
        match self.find(id) {
            Some(k) => {
                proof {
                    self.lemma_model_at(k as int);
                }
                Some(&self.nodes[k])
            },
            None => None,
        }
    }

    /// Cost of entering the node `id`.
    pub fn node_cost(&self, id: NodeId) -> (r: u64)
        requires
            self.wf(),
            self.node_map().contains_key(id),
        ensures
            r == node_cost(self.node_map()[id]),
    {
        let k = self.find(id).unwrap();
        proof {
            self.lemma_model_at(k as int);
        }
        self.nodes[k].cost()
    }

    proof fn lemma_same_edges(&self, other: &Self)
        requires
            self.edges@ == other.edges@,
        ensures
            forall|a: NodeId, b: NodeId| #[trigger] other.edge(a, b) == self.edge(a, b),
    {
    }

    /// Adds `node`, replacing a node of the same id.
    pub fn insert_node(&mut self, node: Node)
        requires
            old(self).wf(),
            node.node_type.wf(),
        ensures
            final(self).wf(),
            final(self).node_map() == old(self).node_map().insert(node.id, node.node_type@),
            forall|a: NodeId, b: NodeId| #[trigger] final(self).edge(a, b) == old(self).edge(a, b),
    {
        let ghost m = node.node_type@;
        let ghost before = *self;
        let id = node.id;
        match self.find(id) {
            Some(k) => {
                self.nodes.set(k, node);
            },
            None => {
                self.nodes.push(node);
            },
        }
        proof {
            assert forall|x: NodeId| #[trigger] self.node_map().contains_key(x) == old(self).node_map().insert(id, m).contains_key(x) by {
                if x != id {
                    if self.has_node(x) {
                        let i = choose|i: int| 0 <= i < self.nodes@.len() && #[trigger] self.nodes@[i].id == x;
                        assert(old(self).nodes@[i].id == x);
                    }
                    if old(self).has_node(x) {
                        let i = choose|i: int| 0 <= i < old(self).nodes@.len() && #[trigger] old(self).nodes@[i].id == x;
                        assert(self.nodes@[i].id == x);
                    }
                } else {
                    assert(self.nodes@[ if old(self).has_node(id) { choose|i: int| 0 <= i < old(self).nodes@.len() && #[trigger] old(self).nodes@[i].id == id } else { old(self).nodes@.len() as int } ].id == id);
                }
            }
            assert forall|x: NodeId| #[trigger] self.node_map().contains_key(x) implies self.node_map()[x] == old(self).node_map().insert(id, m)[x] by {
                let k = choose|i: int| 0 <= i < self.nodes@.len() && #[trigger] self.nodes@[i].id == x;
                self.lemma_model_at(k);
                if x != id {
                    old(self).lemma_model_at(k);
                }
            }
            assert(self.node_map() =~= old(self).node_map().insert(id, m));
            before.lemma_same_edges(self);
        }
    }

    /// Appends the outcomes of `other` to the history of the drone `id`.
    pub fn merge_drone(&mut self, id: NodeId, other: Drone)
        requires
            old(self).wf(),
            old(self).node_map().contains_key(id),
            old(self).node_map()[id] is Drone,
        ensures
            final(self).wf(),
            final(self).node_map() == old(self).node_map().insert(
                id,
                NodeModel::Drone(keep_last(old(self).node_map()[id]->Drone_0 + other@)),
            ),
            forall|a: NodeId, b: NodeId| #[trigger] final(self).edge(a, b) == old(self).edge(a, b),
    {
        let k = self.find(id).unwrap();
        proof {
            self.lemma_model_at(k as int);
            assert(self.nodes@[k as int].node_type.wf());
        }
        let mut node = self.nodes[k].clone();
        if let NodeType::Drone(drone) = &mut node.node_type {
            drone.merge_drone(other);
        }
        self.insert_node(node);
    }

    /// Gives the host `id` the application `app`; a drone is left as it is.
    pub fn set_application(&mut self, id: NodeId, app: ApplicationType)
        requires
            old(self).wf(),
        ensures
            final(self).wf(),
            final(self).node_map() == (if old(self).node_map().contains_key(id) {
                match old(self).node_map()[id] {
                    NodeModel::Server(_) => old(self).node_map().insert(id, NodeModel::Server(app)),
                    NodeModel::Client(_) => old(self).node_map().insert(id, NodeModel::Client(app)),
                    NodeModel::Drone(_) => old(self).node_map(),
                }
            } else {
                old(self).node_map()
            }),
            forall|a: NodeId, b: NodeId| #[trigger] final(self).edge(a, b) == old(self).edge(a, b),
    {
        if let Some(k) = self.find(id) {
            proof {
                self.lemma_model_at(k as int);
            }
            let mut node = self.nodes[k].clone();
            if let Some(a) = node.node_type.application_mut() {
                *a = app;
            }
            if node.node_type.to_simple() != crate::packet::SimpleNodeType::Drone {
                self.insert_node(node);
            }
        }
    }

    /// Forgets every node and link, then holds `node` alone.
    pub fn reset_to(&mut self, node: Node)
        requires
            node.node_type.wf(),
        ensures
            final(self).wf(),
            final(self).node_map() == Map::<NodeId, NodeModel>::empty().insert(node.id, node.node_type@),
            forall|a: NodeId, b: NodeId| !#[trigger] final(self).edge(a, b),
    {
        *self = Graph::new();
        self.insert_node(node);
    }

    /// Links `a` and `b`; a link of a node to itself is ignored.
    pub fn add_undirected_edge(&mut self, a: NodeId, b: NodeId)
        requires
            old(self).wf(),
        ensures
            final(self).wf(),
            final(self).node_map() == old(self).node_map(),
            forall|x: NodeId, y: NodeId| #[trigger] final(self).edge(x, y) == (old(self).edge(x, y)
                || (a != b && ((x == a && y == b) || (x == b && y == a)))),
    {
        if a == b {
            return;
        }
        let mut i: usize = 0;
        while i < self.edges.len()
            invariant
                i <= self.edges@.len(),
                self.wf(),
                self.edges@ == old(self).edges@,
                self.nodes@ == old(self).nodes@,
                forall|k: int| 0 <= k < i ==> #[trigger] self.edges@[k] != (a, b) && self.edges@[k] != (b, a),
            decreases self.edges@.len() - i,
        {
            if (self.edges[i].0 == a && self.edges[i].1 == b) || (self.edges[i].0 == b && self.edges[i].1 == a) {
                proof {
                    assert(self.edge(a, b));
                    assert(self.edge(b, a));
                }
                return;
            }
            i = i + 1;
        }
        let ghost before = *self;
        self.edges.push((a, b));
        proof {
            assert(self.nodes@ == before.nodes@);
            assert(self.node_map() =~= before.node_map());
            assert forall|x: NodeId, y: NodeId| #[trigger] self.edge(x, y) == (before.edge(x, y) || ((x == a && y == b) || (x == b && y == a))) by {
                if before.edge(x, y) {
                    let k = choose|k: int| 0 <= k < before.edges@.len() && (#[trigger] before.edges@[k] == (x, y) || before.edges@[k] == (y, x));
                    assert(self.edges@[k] == before.edges@[k]);
                }
                if (x == a && y == b) || (x == b && y == a) {
                    assert(self.edges@[before.edges@.len() as int] == (a, b));
                }
                if self.edge(x, y) {
                    let k = choose|k: int| 0 <= k < self.edges@.len() && (#[trigger] self.edges@[k] == (x, y) || self.edges@[k] == (y, x));
                    if k < before.edges@.len() {
                        assert(before.edges@[k] == self.edges@[k]);
                    }
                }
            }
        }
    }

    /// Unlinks `a` and `b`.
    pub fn remove_undirected_edge(&mut self, a: NodeId, b: NodeId)
        requires
            old(self).wf(),
        ensures
            final(self).wf(),
            final(self).node_map() == old(self).node_map(),
            forall|x: NodeId, y: NodeId| #[trigger] final(self).edge(x, y) == (old(self).edge(x, y)
                && !((x == a && y == b) || (x == b && y == a))),
    {
        let ghost before = *self;
        let mut kept: Vec<(NodeId, NodeId)> = Vec::new();
        let mut i: usize = 0;
        while i < self.edges.len()
            invariant
                i <= self.edges@.len(),
                self.edges@ == before.edges@,
                forall|k: int| 0 <= k < kept@.len() ==> #[trigger] kept@[k].0 != kept@[k].1,
                forall|k: int| 0 <= k < kept@.len() ==> #[trigger] kept@[k] != (a, b) && kept@[k] != (b, a),
                forall|k: int| 0 <= k < kept@.len() ==> exists|j: int| 0 <= j < i && self.edges@[j] == #[trigger] kept@[k],
                forall|j: int| 0 <= j < i && #[trigger] self.edges@[j] != (a, b) && self.edges@[j] != (b, a)
                    ==> kept@.contains(self.edges@[j]),
                before.wf(),
            decreases self.edges@.len() - i,
        {
            let e = self.edges[i];
            let ghost kept_before = kept@;
            if !((e.0 == a && e.1 == b) || (e.0 == b && e.1 == a)) {
                kept.push(e);
            }
            proof {
                assert forall|j: int| 0 <= j < i + 1 && #[trigger] self.edges@[j] != (a, b) && self.edges@[j] != (b, a)
                    implies kept@.contains(self.edges@[j]) by {
                    if j == i {
                        assert(kept@[kept@.len() - 1] == e);
                    } else {
                        let w = choose|w: int| 0 <= w < kept_before.len() && kept_before[w] == self.edges@[j];
                        assert(kept@[w] == self.edges@[j]);
                    }
                }
                assert forall|k: int| 0 <= k < kept@.len() implies exists|j: int| 0 <= j < i + 1 && self.edges@[j] == #[trigger] kept@[k] by {
                    if k == kept_before.len() {
                        assert(self.edges@[i as int] == kept@[k]);
                    } else {
                        assert(kept@[k] == kept_before[k]);
                        let j = choose|j: int| 0 <= j < i && self.edges@[j] == #[trigger] kept_before[k];
                        assert(self.edges@[j] == kept@[k]);
                    }
                }
            }
            i = i + 1;
        }
        self.edges = kept;
        proof {
            assert(self.node_map() =~= before.node_map());
            assert forall|x: NodeId, y: NodeId| #[trigger] self.edge(x, y) == (before.edge(x, y) && !((x == a && y == b) || (x == b && y == a))) by {
                if self.edge(x, y) {
                    let k = choose|k: int| 0 <= k < self.edges@.len() && (#[trigger] self.edges@[k] == (x, y) || self.edges@[k] == (y, x));
                    let j = choose|j: int| 0 <= j < before.edges@.len() && before.edges@[j] == #[trigger] self.edges@[k];
                    assert(before.edges@[j] == (x, y) || before.edges@[j] == (y, x));
                }
                if before.edge(x, y) && !((x == a && y == b) || (x == b && y == a)) {
                    let j = choose|j: int| 0 <= j < before.edges@.len() && (#[trigger] before.edges@[j] == (x, y) || before.edges@[j] == (y, x));
                    assert(self.edges@.contains(before.edges@[j]));
                    let k = choose|k: int| 0 <= k < self.edges@.len() && self.edges@[k] == before.edges@[j];
                    assert(self.edges@[k] == (x, y) || self.edges@[k] == (y, x));
                }
            }
        }
    }

    /// The nodes linked to `id`, in the order their links were made.
    pub fn adjacents(&self, id: NodeId) -> (r: Vec<NodeId>)
        requires
            self.wf(),
        ensures
            forall|y: NodeId| #[trigger] r@.contains(y) <==> self.edge(id, y),
    {
        let mut r: Vec<NodeId> = Vec::new();
        let mut i: usize = 0;
        while i < self.edges.len()
            invariant
                i <= self.edges@.len(),
                forall|y: NodeId| #[trigger] r@.contains(y) <==> exists|k: int| 0 <= k < i && (#[trigger] self.edges@[k] == (id, y) || self.edges@[k] == (y, id)),
            decreases self.edges@.len() - i,
        {
            let e = self.edges[i];
            let ghost before = r@;
            if e.0 == id {
                r.push(e.1);
            } else if e.1 == id {
                r.push(e.0);
            }
            proof {
                assert forall|y: NodeId| #[trigger] r@.contains(y) <==> exists|k: int| 0 <= k < i + 1 && (#[trigger] self.edges@[k] == (id, y) || self.edges@[k] == (y, id)) by {
                    if r@.contains(y) && !before.contains(y) {
                        assert(r@.last() == y);
                        assert(self.edges@[i as int] == (id, y) || self.edges@[i as int] == (y, id));
                    }
                    if before.contains(y) {
                        let j = choose|j: int| 0 <= j < before.len() && before[j] == y;
                        assert(r@[j] == y);
                    }
                    if exists|k: int| 0 <= k < i + 1 && (#[trigger] self.edges@[k] == (id, y) || self.edges@[k] == (y, id)) {
                        let k = choose|k: int| 0 <= k < i + 1 && (#[trigger] self.edges@[k] == (id, y) || self.edges@[k] == (y, id));
                        if k == i {
                            assert(r@.last() == y);
                            assert(r@[r@.len() - 1] == y);
                        }
                    }
                }
            }
            i = i + 1;
        }
        r
    }
}

} // verus!
