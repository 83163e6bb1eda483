//! What a received packet tells about the topology: nodes to add, links to
//! add or remove, and delivery outcomes of the drones it passed.

use vstd::prelude::*;
use crate::node::{
    ApplicationType, Drone, FragmentDelivery, Node, NodeId, NodeModel, NodeType,
    is_host, model_wf, strong_counterpart, weak_counterpart,
};
use crate::packet::{NackType, Packet, PacketType, SimpleNodeType, trace_ids};

verus! {

/// One change to the topology graph.
#[derive(Debug)]
pub enum Information {
    AddNode(Node),
    AddEdge(NodeId, NodeId),
    RemoveEdge(NodeId, NodeId),
}

/// An `Information` with its node seen through its model.
pub enum InfoModel {
    AddNode(NodeId, NodeModel),
    AddEdge(NodeId, NodeId),
    RemoveEdge(NodeId, NodeId),
}

impl View for Information {
    type V = InfoModel;

    open spec fn view(&self) -> InfoModel {
        match self {
            Information::AddNode(n) => InfoModel::AddNode(n.id, n.node_type@),
            Information::AddEdge(a, b) => InfoModel::AddEdge(*a, *b),
            Information::RemoveEdge(a, b) => InfoModel::RemoveEdge(*a, *b),
        }
    }
}

pub open spec fn info_models(s: Seq<Information>) -> Seq<InfoModel> {
    s.map_values(|i: Information| i@)
}

proof fn lemma_info_models_push(s: Seq<Information>, x: Information)
    ensures
        info_models(s.push(x)) == info_models(s).push(x@),
{
    assert(info_models(s.push(x)) =~= info_models(s).push(x@));
}

/// A drone seen once with the given outcome.
pub open spec fn drone_with(d: FragmentDelivery) -> NodeModel {
    NodeModel::Drone(seq![d])
}

pub open spec fn fresh_drone() -> NodeModel {
    NodeModel::Drone(Seq::empty())
}

/// A node for every hop but the last: the first is `first`, the others `rest`.
pub open spec fn hop_infos(hops: Seq<NodeId>, first: NodeModel, rest: NodeModel) -> Seq<InfoModel> {
    Seq::new(
        if hops.len() == 0 { 0 } else { (hops.len() - 1) as nat },
        |i: int| InfoModel::AddNode(hops[i], if i == 0 { first } else { rest }),
    )
}

/// A link between every two consecutive hops.
pub open spec fn edge_infos(hops: Seq<NodeId>) -> Seq<InfoModel> {
    Seq::new(
        if hops.len() == 0 { 0 } else { (hops.len() - 1) as nat },
        |i: int| InfoModel::AddEdge(hops[i], hops[i + 1]),
    )
}

pub open spec fn simple_model(k: SimpleNodeType) -> NodeModel {
    match k {
        SimpleNodeType::Drone => fresh_drone(),
        SimpleNodeType::Server => NodeModel::Server(ApplicationType::Unknown),
        SimpleNodeType::Client => NodeModel::Client(ApplicationType::Unknown),
    }
}

/// What a flood's path trace tells: each traced node, and the links between
/// consecutive ones.
pub open spec fn trace_infos(t: Seq<(NodeId, SimpleNodeType)>) -> Seq<InfoModel> {
    Seq::new(t.len(), |i: int| InfoModel::AddNode(t[i].0, simple_model(t[i].1))) + edge_infos(trace_ids(t))
}

/// What a packet received by the host `src` tells about the topology.
pub open spec fn packet_infos(p: Packet, src: NodeModel) -> Seq<InfoModel> {
    let h = p.routing_header.hops@;
    let forwarded = drone_with(FragmentDelivery::Forwarded);
    let dropped = drone_with(FragmentDelivery::Dropped);
    match p.pack_type {
        PacketType::MsgFragment(_) => hop_infos(h, weak_counterpart(src), forwarded) + edge_infos(h),
        PacketType::Ack(_) => hop_infos(h, strong_counterpart(src), fresh_drone()) + edge_infos(h),
        PacketType::Nack(n) => match n.nack_type {
            NackType::ErrorInRouting(x) => if h.len() == 0 {
                Seq::empty()
            } else {
                hop_infos(h, fresh_drone(), forwarded) + edge_infos(h) + seq![InfoModel::RemoveEdge(h[0], x)]
            },
            NackType::DestinationIsDrone => hop_infos(h, forwarded, forwarded) + edge_infos(h),
            NackType::Dropped => hop_infos(h, dropped, forwarded) + edge_infos(h),
            NackType::UnexpectedRecipient(who) => if h.len() == 0 {
                Seq::empty()
            } else {
                hop_infos(h, dropped, forwarded) + seq![InfoModel::AddNode(who, strong_counterpart(src))] + edge_infos(h)
            },
        },
        PacketType::FloodRequest(r) => trace_infos(r.path_trace@),
        PacketType::FloodResponse(r) => trace_infos(r.path_trace@),
    }
}

fn drone_node(id: NodeId, d: Option<FragmentDelivery>) -> (r: Information)
    ensures
        r@ == InfoModel::AddNode(id, match d {
            Some(x) => drone_with(x),
            None => fresh_drone(),
        }),
        r matches Information::AddNode(n) && n.node_type.wf(),
{
    let drone = match d {
        Some(x) => {
            let mut v = Vec::new();
            v.push(x);
            let dr = Drone::with_delivery(v);
            proof {
                assert(dr@ =~= seq![x]);
            }
            dr
        },
        None => Drone::new(),
    };
    Information::AddNode(Node::new(id, NodeType::Drone(drone)))
}

/// Appends a node for every hop but the last, then a link for every two
/// consecutive hops.
fn push_hops(out: &mut Vec<Information>, hops: &Vec<NodeId>, first: Node, rest: Option<FragmentDelivery>)
    requires
        first.node_type.wf(),
    ensures
        info_models(final(out)@) == info_models(old(out)@) + hop_infos(hops@, first.node_type@, match rest {
            Some(x) => drone_with(x),
            None => fresh_drone(),
        }),
        forall|k: int| 0 <= k < final(out)@.len() && !(0 <= k < old(out)@.len()) ==> (#[trigger] final(out)@[k] matches Information::AddNode(n) ==> n.node_type.wf()),
        forall|k: int| 0 <= k < old(out)@.len() ==> #[trigger] final(out)@[k] == old(out)@[k],
{
    let ghost restm = match rest {
        Some(x) => drone_with(x),
        None => fresh_drone(),
    };
    let ghost start = info_models(out@);
    let ghost start_len = out@.len();
    let n = hops.len();
    if n == 0 {
        proof {
            assert(hop_infos(hops@, first.node_type@, restm) =~= Seq::<InfoModel>::empty());
            assert(info_models(out@) =~= start + Seq::<InfoModel>::empty());
        }
        return;
    }
    let ghost fm = first.node_type@;
    let first_id = hops[0];
    let mut first = first;
    first.id = first_id;
    let mut i: usize = 0;
    if n > 1 {
        out.push(Information::AddNode(first));
        i = 1;
    }
    proof {
        assert(info_models(out@) =~= start + hop_infos(hops@, fm, restm).subrange(0, i as int));
    }
    while i + 1 < n
        invariant
            n == hops@.len(),
            n >= 1,
            i <= n - 1,
            n > 1 ==> i >= 1,
            out@.len() == start_len + i,
            info_models(out@) == start + hop_infos(hops@, fm, restm).subrange(0, i as int),
            forall|k: int| start_len <= k < out@.len() ==> (#[trigger] out@[k] matches Information::AddNode(n) ==> n.node_type.wf()),
            start_len == old(out)@.len(),
            start == info_models(old(out)@),
            forall|k: int| 0 <= k < start_len ==> #[trigger] out@[k] == old(out)@[k],
            model_wf(fm),
            restm == (match rest {
                Some(x) => drone_with(x),
                None => fresh_drone(),
            }),
        decreases n - i,
    {
        let ghost io = i as int;
        assert(io >= 1);
        let info = drone_node(hops[i], rest);
        assert(info@ == InfoModel::AddNode(hops@[io], restm));
        assert(hop_infos(hops@, fm, restm)[io] == InfoModel::AddNode(hops@[io], restm));
        let ghost prev = out@;
        let ghost im = info@;
        out.push(info);
        i = i + 1;
        proof {
            lemma_info_models_push(prev, out@.last());
            assert(out@ == prev.push(out@.last()));
            assert(out@.last()@ == im);
            assert(info_models(out@) =~= start + hop_infos(hops@, fm, restm).subrange(0, i as int));
        }
    }
    proof {
        assert(hop_infos(hops@, fm, restm).subrange(0, i as int) =~= hop_infos(hops@, fm, restm));
    }
}

/// Appends a link for every two consecutive hops.
fn push_edges(out: &mut Vec<Information>, hops: &Vec<NodeId>)
    ensures
        info_models(final(out)@) == info_models(old(out)@) + edge_infos(hops@),
        forall|k: int| 0 <= k < final(out)@.len() && !(0 <= k < old(out)@.len()) ==> !(#[trigger] final(out)@[k] is AddNode),
        forall|k: int| 0 <= k < old(out)@.len() ==> #[trigger] final(out)@[k] == old(out)@[k],
{
    let ghost start = info_models(out@);
    let ghost start_len = out@.len();
    let n = hops.len();
    let mut i: usize = 0;
    while i + 1 < n
        invariant
            n == hops@.len(),
            i <= n,
            n > 0 ==> i <= n - 1,
            out@.len() == start_len + i,
            info_models(out@) == start + edge_infos(hops@).subrange(0, i as int),
            forall|k: int| start_len <= k < out@.len() ==> !(#[trigger] out@[k] is AddNode),
            start_len == old(out)@.len(),
            start == info_models(old(out)@),
            forall|k: int| 0 <= k < start_len ==> #[trigger] out@[k] == old(out)@[k],
        decreases n - i,
    {
        let ghost prev = out@;
        out.push(Information::AddEdge(hops[i], hops[i + 1]));
        i = i + 1;
        proof {
            lemma_info_models_push(prev, out@.last());
            assert(out@ == prev.push(out@.last()));
            assert(info_models(out@) =~= start + edge_infos(hops@).subrange(0, i as int));
        }
    }
    proof {
        assert(edge_infos(hops@).subrange(0, i as int) =~= edge_infos(hops@));
    }
}

fn push_trace(out: &mut Vec<Information>, t: &Vec<(NodeId, SimpleNodeType)>)
    ensures
        info_models(final(out)@) == info_models(old(out)@) + trace_infos(t@),
        forall|k: int| 0 <= k < final(out)@.len() && !(0 <= k < old(out)@.len()) ==> (#[trigger] final(out)@[k] matches Information::AddNode(n) ==> n.node_type.wf()),
        forall|k: int| 0 <= k < old(out)@.len() ==> #[trigger] final(out)@[k] == old(out)@[k],
{
    let ghost start = info_models(out@);
    let ghost start_len = out@.len();
    let ghost nodes = Seq::new(t@.len(), |i: int| InfoModel::AddNode(t@[i].0, simple_model(t@[i].1)));
    let mut i: usize = 0;
    while i < t.len()
        invariant
            i <= t@.len(),
            out@.len() == start_len + i,
            nodes.len() == t@.len(),
            nodes == Seq::new(t@.len(), |x: int| InfoModel::AddNode(t@[x].0, simple_model(t@[x].1))),
            info_models(out@) == start + nodes.subrange(0, i as int),
            forall|k: int| start_len <= k < out@.len() ==> (#[trigger] out@[k] matches Information::AddNode(n) ==> n.node_type.wf()),
            start_len == old(out)@.len(),
            start == info_models(old(out)@),
            forall|k: int| 0 <= k < start_len ==> #[trigger] out@[k] == old(out)@[k],
        decreases t@.len() - i,
    {
        let (id, kind) = t[i];
        let ghost prev = out@;
        let info = Information::AddNode(Node::new(id, NodeType::new(kind)));
        assert(info@ == nodes[i as int]);
        out.push(info);
        i = i + 1;
        proof {
            lemma_info_models_push(prev, out@.last());
            assert(out@ == prev.push(out@.last()));
            assert(info_models(out@) =~= start + nodes.subrange(0, i as int));
        }
    }
    let mut ids: Vec<NodeId> = Vec::new();
    let mut j: usize = 0;
    while j < t.len()
        invariant
            j <= t@.len(),
            ids@ == trace_ids(t@).subrange(0, j as int),
        decreases t@.len() - j,
    {
        ids.push(t[j].0);
        j = j + 1;
        proof {
            assert(ids@ =~= trace_ids(t@).subrange(0, j as int));
        }
    }
    proof {
        assert(nodes.subrange(0, i as int) =~= nodes);
        assert(trace_ids(t@).subrange(0, j as int) =~= trace_ids(t@));
    }
    push_edges(out, &ids);
    proof {
        assert(info_models(out@) =~= start + trace_infos(t@));
    }
}

/// What the packet `packet`, received by the host `source_node`, tells about
/// the topology.
pub fn get_information(packet: &Packet, source_node: &Node) -> (r: Vec<Information>)
    requires
        source_node.node_type.wf(),
        is_host(source_node.node_type@),
    ensures
        info_models(r@) == packet_infos(*packet, source_node.node_type@),
        forall|k: int| 0 <= k < r@.len() ==> (#[trigger] r@[k] matches Information::AddNode(n) ==> n.node_type.wf()),
{
    let hops = &packet.routing_header.hops;
    let mut out: Vec<Information> = Vec::new();
    proof {
        assert(info_models(out@) =~= Seq::<InfoModel>::empty());
    }
    match &packet.pack_type {
        PacketType::MsgFragment(_) => {
            push_hops(&mut out, hops, Node::new(0, source_node.node_type.weak_counter_part()), Some(FragmentDelivery::Forwarded));
            push_edges(&mut out, hops);
        },
        PacketType::Ack(_) => {
            push_hops(&mut out, hops, Node::new(0, source_node.node_type.strong_counter_part()), None);
            push_edges(&mut out, hops);
        },
        PacketType::Nack(nack) => match nack.nack_type {
            NackType::ErrorInRouting(not_connected) => {
                if hops.len() > 0 {
                    push_hops(&mut out, hops, Node::new(0, NodeType::Drone(Drone::new())), Some(FragmentDelivery::Forwarded));
                    push_edges(&mut out, hops);
                    out.push(Information::RemoveEdge(hops[0], not_connected));
                }
            },
            NackType::DestinationIsDrone => {
                let mut v = Vec::new();
                v.push(FragmentDelivery::Forwarded);
                let d = Drone::with_delivery(v);
                proof {
                    assert(d@ =~= seq![FragmentDelivery::Forwarded]);
                }
                push_hops(&mut out, hops, Node::new(0, NodeType::Drone(d)), Some(FragmentDelivery::Forwarded));
                push_edges(&mut out, hops);
            },
            NackType::Dropped => {
                let mut v = Vec::new();
                v.push(FragmentDelivery::Dropped);
                let d = Drone::with_delivery(v);
                proof {
                    assert(d@ =~= seq![FragmentDelivery::Dropped]);
                }
                push_hops(&mut out, hops, Node::new(0, NodeType::Drone(d)), Some(FragmentDelivery::Forwarded));
                push_edges(&mut out, hops);
            },
            NackType::UnexpectedRecipient(who) => {
                if hops.len() > 0 {
                    let mut v = Vec::new();
                    v.push(FragmentDelivery::Dropped);
                    let d = Drone::with_delivery(v);
                    proof {
                        assert(d@ =~= seq![FragmentDelivery::Dropped]);
                    }
                    push_hops(&mut out, hops, Node::new(0, NodeType::Drone(d)), Some(FragmentDelivery::Forwarded));
                    out.push(Information::AddNode(Node::new(who, source_node.node_type.strong_counter_part())));
                    push_edges(&mut out, hops);
                }
            },
        },
        PacketType::FloodRequest(request) => {
            push_trace(&mut out, &request.path_trace);
        },
        PacketType::FloodResponse(response) => {
            push_trace(&mut out, &response.path_trace);
        },
    }
    proof {
        assert(info_models(out@) =~= packet_infos(*packet, source_node.node_type@));
    }
    out
}

} // verus!
