//! The wire format: source routing headers, fragments, acknowledgements and
//! flood probes.

use vstd::prelude::*;
use crate::node::NodeId;

verus! {

/// Payload bytes carried by one fragment.
pub const FRAGMENT_DSIZE: usize = 128;

/// The kind of a node as it travels in a flood's path trace.
#[derive(Debug, Clone, Copy, PartialEq, Eq, Structural)]
pub enum SimpleNodeType {
    Client,
    Drone,
    Server,
}


/// A source route: the full list of hops and the index of the node that
/// holds the packet.
#[derive(Debug)]
pub struct SourceRoutingHeader {
    pub hop_index: usize,
    pub hops: Vec<NodeId>,
}

impl Clone for SourceRoutingHeader {
    fn clone(&self) -> (r: Self)
        ensures
            r.hop_index == self.hop_index,
            r.hops@ == self.hops@,
    {
        SourceRoutingHeader { hop_index: self.hop_index, hops: self.hops.clone() }
    }
}

impl SourceRoutingHeader {
    pub fn initialize(hops: Vec<NodeId>) -> (r: Self)
        ensures
            r.hops@ == hops@,
            r.hop_index == 0,
    {
        SourceRoutingHeader { hop_index: 0, hops }
    }

    pub fn empty_route() -> (r: Self)
        ensures
            r.hops@ == Seq::<NodeId>::empty(),
            r.hop_index == 0,
    {
        SourceRoutingHeader { hop_index: 0, hops: Vec::new() }
    }

    /// The hop after the current one, if any.
    pub fn next_hop(&self) -> (r: Option<NodeId>)
        ensures
            r == (if self.hop_index + 1 < self.hops@.len() {
                Some(self.hops@[self.hop_index + 1])
            } else {
                None::<NodeId>
            }),
    {
        if self.hop_index < self.hops.len() && self.hop_index + 1 < self.hops.len() {
            Some(self.hops[self.hop_index + 1])
        } else {
            None
        }
    }

    pub fn increase_hop_index(&mut self)
        requires
            old(self).hop_index < usize::MAX,
        ensures
            final(self).hops@ == old(self).hops@,
            final(self).hop_index == old(self).hop_index + 1,
    {
        self.hop_index = self.hop_index + 1;
    }

    /// The first hop: the node that sent the packet.
    pub fn source(&self) -> (r: Option<NodeId>)
        ensures
            r == (if self.hops@.len() > 0 {
                Some(self.hops@[0])
            } else {
                None::<NodeId>
            }),
    {
        if self.hops.len() > 0 {
            Some(self.hops[0])
        } else {
            None
        }
    }

    /// The same hops in the opposite order, held by its first hop.
    pub fn get_reversed(&self) -> (r: Self)
        ensures
            r.hops@ == self.hops@.reverse(),
            r.hop_index == 0,
    {
        let mut hops: Vec<NodeId> = Vec::new();
        let mut i: usize = self.hops.len();
        while i > 0
            invariant
                i <= self.hops@.len(),
                hops@ == self.hops@.subrange(i as int, self.hops@.len() as int).reverse(),
            decreases i,
        {
            i = i - 1;
            hops.push(self.hops[i]);
            proof {
                assert(hops@ =~= self.hops@.subrange(i as int, self.hops@.len() as int).reverse());
            }
        }
        proof {
            assert(self.hops@.subrange(0, self.hops@.len() as int) =~= self.hops@);
        }
        SourceRoutingHeader { hop_index: 0, hops }
    }
}

/// A slice of a serialized message.
#[derive(Debug)]
pub struct Fragment {
    pub fragment_index: u64,
    pub total_n_fragments: u64,
    pub length: u8,
    pub data: Vec<u8>,
}

impl Clone for Fragment {
    fn clone(&self) -> (r: Self)
        ensures
            r.fragment_index == self.fragment_index,
            r.total_n_fragments == self.total_n_fragments,
            r.length == self.length,
            r.data@ == self.data@,
    {
        Fragment {
            fragment_index: self.fragment_index,
            total_n_fragments: self.total_n_fragments,
            length: self.length,
            data: self.data.clone(),
        }
    }
}

impl Fragment {
    /// The bytes that the fragment carries.
    pub open spec fn payload(&self) -> Seq<u8> {
        self.data@.subrange(0, self.length as int)
    }

    /// A fragment as it stands on the wire: `FRAGMENT_DSIZE` data bytes of which
    /// the first `length` count.
    pub open spec fn wf(&self) -> bool {
        &&& self.data@.len() == FRAGMENT_DSIZE
        &&& 1 <= self.length <= FRAGMENT_DSIZE
        &&& self.fragment_index < self.total_n_fragments
    }
}

#[derive(Debug, Clone, Copy, PartialEq, Eq, Structural)]
pub struct Ack {
    pub fragment_index: u64,
}

#[derive(Debug, Clone, Copy, PartialEq, Eq, Structural)]
pub enum NackType {
    ErrorInRouting(NodeId),
    DestinationIsDrone,
    Dropped,
    UnexpectedRecipient(NodeId),
}

#[derive(Debug, Clone, Copy, PartialEq, Eq, Structural)]
pub struct Nack {
    pub fragment_index: u64,
    pub nack_type: NackType,
}

#[derive(Debug, Clone)]
pub struct FloodRequest {
    pub flood_id: u64,
    pub initiator_id: NodeId,
    pub path_trace: Vec<(NodeId, SimpleNodeType)>,
}

#[derive(Debug, Clone)]
pub struct FloodResponse {
    pub flood_id: u64,
    pub path_trace: Vec<(NodeId, SimpleNodeType)>,
}

#[derive(Debug, Clone)]
pub enum PacketType {
    MsgFragment(Fragment),
    Ack(Ack),
    Nack(Nack),
    FloodRequest(FloodRequest),
    FloodResponse(FloodResponse),
}

#[derive(Debug, Clone)]
pub struct Packet {
    pub pack_type: PacketType,
    pub routing_header: SourceRoutingHeader,
    pub session_id: u64,
}

/// A copy of a path trace.
pub fn copy_trace(t: &Vec<(NodeId, SimpleNodeType)>) -> (r: Vec<(NodeId, SimpleNodeType)>)
    ensures
        r@ == t@,
{
    let mut r: Vec<(NodeId, SimpleNodeType)> = Vec::new();
    let mut i: usize = 0;
    while i < t.len()
        invariant
            i <= t@.len(),
            r@ == t@.subrange(0, i as int),
        decreases t@.len() - i,
    {
        r.push(t[i]);
        i = i + 1;
        proof {
            assert(r@ =~= t@.subrange(0, i as int));
        }
    }
    proof {
        assert(t@.subrange(0, i as int) =~= t@);
    }
    r
}

/// The node ids of a path trace, in order.
pub open spec fn trace_ids(t: Seq<(NodeId, SimpleNodeType)>) -> Seq<NodeId> {
    t.map_values(|p: (NodeId, SimpleNodeType)| p.0)
}

impl FloodRequest {
    /// A flood started by `initiator_id`, whose trace holds the initiator.
    pub fn initialize(flood_id: u64, initiator_id: NodeId, kind: SimpleNodeType) -> (r: Self)
        ensures
            r.flood_id == flood_id,
            r.initiator_id == initiator_id,
            r.path_trace@ == seq![(initiator_id, kind)],
    {
        let mut path_trace = Vec::new();
        path_trace.push((initiator_id, kind));
        proof {
            assert(path_trace@ =~= seq![(initiator_id, kind)]);
        }
        FloodRequest { flood_id, initiator_id, path_trace }
    }

    /// Appends a node to the path trace.
    pub fn increment(&mut self, id: NodeId, kind: SimpleNodeType)
        ensures
            final(self).flood_id == old(self).flood_id,
            final(self).initiator_id == old(self).initiator_id,
            final(self).path_trace@ == old(self).path_trace@.push((id, kind)),
    {
        self.path_trace.push((id, kind));
    }

    /// The response that travels the trace backwards, from its last node to
    /// the initiator.
    pub fn generate_response(&self, session_id: u64) -> (r: Packet)
        ensures
            r.session_id == session_id,
            r.routing_header.hop_index == 0,
            r.routing_header.hops@ == trace_ids(self.path_trace@).reverse(),
            r.pack_type matches PacketType::FloodResponse(resp) && resp.flood_id == self.flood_id
                && resp.path_trace@ == self.path_trace@,
    {
        let mut hops: Vec<NodeId> = Vec::new();
        let mut i: usize = self.path_trace.len();
        while i > 0
            invariant
                i <= self.path_trace@.len(),
                hops@ == trace_ids(self.path_trace@.subrange(i as int, self.path_trace@.len() as int)).reverse(),
            decreases i,
        {
            i = i - 1;
            hops.push(self.path_trace[i].0);
            proof {
                assert(hops@ =~= trace_ids(self.path_trace@.subrange(i as int, self.path_trace@.len() as int)).reverse());
            }
        }
        proof {
            assert(self.path_trace@.subrange(0, self.path_trace@.len() as int) =~= self.path_trace@);
        }
        Packet {
            pack_type: PacketType::FloodResponse(
                FloodResponse { flood_id: self.flood_id, path_trace: copy_trace(&self.path_trace) },
            ),
            routing_header: SourceRoutingHeader { hop_index: 0, hops },
            session_id,
        }
    }
}

impl Packet {
    pub fn new_fragment(routing_header: SourceRoutingHeader, session_id: u64, fragment: Fragment) -> (r: Packet)
        ensures
            r == (Packet { pack_type: PacketType::MsgFragment(fragment), routing_header, session_id }),
    {
        Packet { pack_type: PacketType::MsgFragment(fragment), routing_header, session_id }
    }

    pub fn new_ack(routing_header: SourceRoutingHeader, session_id: u64, fragment_index: u64) -> (r: Packet)
        ensures
            r == (Packet { pack_type: PacketType::Ack(Ack { fragment_index }), routing_header, session_id }),
    {
        Packet { pack_type: PacketType::Ack(Ack { fragment_index }), routing_header, session_id }
    }

    pub fn new_nack(routing_header: SourceRoutingHeader, session_id: u64, nack: Nack) -> (r: Packet)
        ensures
            r == (Packet { pack_type: PacketType::Nack(nack), routing_header, session_id }),
    {
        Packet { pack_type: PacketType::Nack(nack), routing_header, session_id }
    }

    pub fn new_flood_request(routing_header: SourceRoutingHeader, session_id: u64, request: FloodRequest) -> (r: Packet)
        ensures
            r == (Packet { pack_type: PacketType::FloodRequest(request), routing_header, session_id }),
    {
        Packet { pack_type: PacketType::FloodRequest(request), routing_header, session_id }
    }
}

} // verus!
