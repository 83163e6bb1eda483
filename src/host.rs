//! The per-host protocol machine. It decides what to do with each packet,
//! command and outgoing message; the caller moves packets over channels.

use vstd::prelude::*;
use crate::assembler::{Assembler, Disassembler, SESSION_COUNTER_LIMIT, same_fragment, session_id_of, stores};
use crate::codec::{concat_payloads, fragments_of};
use crate::information::packet_infos;
use crate::node::{NodeId, NodeModel, NodeType, is_host, simple_of};
use crate::packet::{
    Ack, FloodRequest, Fragment, Nack, NackType, Packet, PacketType, SimpleNodeType, SourceRoutingHeader,
    FRAGMENT_DSIZE,
};
use crate::routing::{SourceRouter, apply_infos, chosen_route, edge_set, mark_unwanted, not_ending_at};

verus! {

/// Relies on rand::random: a fresh u64 from the thread's generator; nothing is
/// promised of its value.
#[verifier::external_body]
fn random_u64() -> u64 {
    rand::random::<u64>()
}

/// Where a host is in its life: it never goes back.
#[derive(Debug, Clone, Copy, PartialEq, Eq, Structural)]
pub enum HostState {
    Idle,
    Active,
    Stopping,
    Terminated,
}

/// A packet to hand to the neighbour `.0`.
pub type Dispatch = (NodeId, Packet);

/// A message that has been reassembled.
#[derive(Debug)]
pub struct Delivery {
    pub session_id: u64,
    pub bytes: Vec<u8>,
    /// The route back to the sender, held by this host.
    pub reply_route: SourceRoutingHeader,
}

/// What handling one packet produced.
#[derive(Debug)]
pub struct Outcome {
    pub to_send: Vec<Dispatch>,
    pub delivered: Option<Delivery>,
}

/// Seconds between two floods of a server, and between two recomputations
/// of its routes.
pub const MAINTENANCE_PERIOD_SECS: u64 = 30;

/// Whether periodic work last done `elapsed_secs` seconds ago is due again.
pub fn maintenance_due(elapsed_secs: u64) -> (r: bool)
    ensures
        r == (elapsed_secs > MAINTENANCE_PERIOD_SECS),
{
    elapsed_secs > MAINTENANCE_PERIOD_SECS
}

/// `p` moved one hop on: its header points at the next node.
pub open spec fn advanced(p: Packet, q: Packet) -> bool {
    &&& q.pack_type == p.pack_type
    &&& q.session_id == p.session_id
    &&& q.routing_header.hops@ == p.routing_header.hops@
    &&& q.routing_header.hop_index == p.routing_header.hop_index + 1
}

/// Advances `packet` to its next hop and says where it goes; a packet at
/// the end of its route goes nowhere.
pub fn prepare_forward(packet: Packet) -> (r: Option<Dispatch>)
    ensures
        match r {
            Some(d) => packet.routing_header.hop_index + 1 < packet.routing_header.hops@.len()
                && d.0 == packet.routing_header.hops@[packet.routing_header.hop_index + 1]
                && advanced(packet, d.1),
            None => !(packet.routing_header.hop_index + 1 < packet.routing_header.hops@.len()),
        },
{
    let mut packet = packet;
    let n = packet.routing_header.hops.len();
    match packet.routing_header.next_hop() {
        Some(next) => {
            packet.routing_header.increase_hop_index();
            Some((next, packet))
        },
        None => None,
    }
}

pub struct Host {
    id: NodeId,
    node_type: NodeType,
    assembler: Assembler,
    disassembler: Disassembler,
    router: SourceRouter,
    delivered: Vec<u64>,
    state: HostState,
}

impl Host {
    pub closed spec fn spec_id(&self) -> NodeId {
        self.id
    }

    pub closed spec fn spec_kind(&self) -> NodeModel {
        self.node_type@
    }

    pub closed spec fn spec_router(&self) -> SourceRouter {
        self.router
    }

    pub closed spec fn spec_assembler(&self) -> Assembler {
        self.assembler
    }

    pub closed spec fn spec_disassembler(&self) -> Disassembler {
        self.disassembler
    }

    /// The sessions already handed to the application.
    pub closed spec fn spec_delivered(&self) -> Seq<u64> {
        self.delivered@
    }

    pub closed spec fn spec_state(&self) -> HostState {
        self.state
    }

    pub open spec fn wf(&self) -> bool {
        &&& self.spec_router().wf()
        &&& self.spec_router().spec_source() == self.spec_id()
        &&& is_host(self.spec_kind())
        &&& self.spec_assembler().wf()
        &&& self.spec_disassembler().wf()
    }

    /// A host `id` of kind `node_type`, idle, that knows only itself.
    pub fn new(id: NodeId, node_type: NodeType) -> (r: Self)
        requires
            is_host(node_type@),
        ensures
            r.wf(),
            r.spec_id() == id,
            r.spec_kind() == node_type@,
            r.spec_state() == HostState::Idle,
            r.spec_delivered() == Seq::<u64>::empty(),
            r.spec_disassembler().counter() == 0,
            r.spec_router().spec_routes() == Seq::<Seq<NodeId>>::empty(),
            r.spec_router().spec_graph().node_map() == Map::<NodeId, NodeModel>::empty().insert(id, node_type@),
    {
        let router = SourceRouter::new(crate::node::Node::new(id, node_type.clone()));
        Host {
            id,
            node_type,
            assembler: Assembler::new(),
            disassembler: Disassembler::new(),
            router,
            delivered: Vec::new(),
            state: HostState::Idle,
        }
    }

    pub fn id(&self) -> (r: NodeId)
        ensures
            r == self.spec_id(),
    {
        self.id
    }

    pub fn router(&self) -> (r: &SourceRouter)
        ensures
            *r == self.spec_router(),
    {
        &self.router
    }

    pub fn state(&self) -> (r: HostState)
        ensures
            r == self.spec_state(),
    {
        self.state
    }

    /// Starts the event loop of an idle host.
    pub fn start(&mut self)
        ensures
            final(self).spec_state() == (if old(self).spec_state() == HostState::Idle { HostState::Active } else { old(self).spec_state() }),
            final(self).spec_router() == old(self).spec_router(),
            final(self).spec_id() == old(self).spec_id(),
            final(self).wf() == old(self).wf(),
    {
        if self.state == HostState::Idle {
            self.state = HostState::Active;
        }
    }

    /// The `Crash` command: an active host stops at its next iteration.
    pub fn crash(&mut self)
        ensures
            final(self).spec_state() == (if old(self).spec_state() == HostState::Active { HostState::Stopping } else { old(self).spec_state() }),
            final(self).spec_router() == old(self).spec_router(),
            final(self).spec_id() == old(self).spec_id(),
            final(self).wf() == old(self).wf(),
    {
        if self.state == HostState::Active {
            self.state = HostState::Stopping;
        }
    }

    /// The event loop has exited.
    pub fn finish(&mut self)
        ensures
            final(self).spec_state() == (if old(self).spec_state() == HostState::Stopping { HostState::Terminated } else { old(self).spec_state() }),
            final(self).spec_router() == old(self).spec_router(),
            final(self).spec_id() == old(self).spec_id(),
            final(self).wf() == old(self).wf(),
    {
        if self.state == HostState::Stopping {
            self.state = HostState::Terminated;
        }
    }

    /// Whether the event loop should run another iteration.
    pub fn is_active(&self) -> (r: bool)
        ensures
            r == (self.spec_state() == HostState::Active),
    {
        self.state == HostState::Active
    }

    /// A new session id: this host's id in the high byte, its session counter
    /// below; none once the counter is spent.
    pub fn new_session_id(&mut self) -> (r: Option<u64>)
        requires
            old(self).wf(),
        ensures
            final(self).wf(),
            final(self).spec_id() == old(self).spec_id(),
            final(self).spec_router() == old(self).spec_router(),
            final(self).spec_state() == old(self).spec_state(),
            final(self).spec_delivered() == old(self).spec_delivered(),
            match r {
                Some(s) => old(self).spec_disassembler().counter() < SESSION_COUNTER_LIMIT
                    && s == session_id_of(old(self).spec_id(), old(self).spec_disassembler().counter())
                    && final(self).spec_disassembler().counter() == old(self).spec_disassembler().counter() + 1,
                None => old(self).spec_disassembler().counter() >= SESSION_COUNTER_LIMIT
                    && final(self).spec_disassembler() == old(self).spec_disassembler(),
            },
    {
        if self.disassembler.counter_value() >= SESSION_COUNTER_LIMIT {
            return None;
        }
        let c = self.disassembler.new_session_id();
        Some(Disassembler::transform_session_id(c, self.id))
    }
}


/// The request counter of a router after `i` more answered requests from `c`.
pub open spec fn count_after(c: nat, i: nat) -> nat {
    (c + i) % (usize::MAX as nat + 1)
}

proof fn lemma_count_step(c: nat, i: nat)
    ensures
        count_after(c, i + 1) == (if count_after(c, i) == usize::MAX { 0 } else { count_after(c, i) + 1 }),
        count_after(c, i) <= usize::MAX,
{
    let m = usize::MAX as int + 1;
    let x = (c + i) as int;
    vstd::arithmetic::div_mod::lemma_fundamental_div_mod(x, m);
    let q = x / m;
    let r = x % m;
    vstd::arithmetic::div_mod::lemma_mod_bound(x, m);
    if r + 1 < m {
        assert(x + 1 == q * m + (r + 1)) by (nonlinear_arith)
            requires
                x == m * q + r,
        ;
        vstd::arithmetic::div_mod::lemma_fundamental_div_mod_converse(x + 1, m, q, r + 1);
    } else {
        assert(x + 1 == (q + 1) * m + 0) by (nonlinear_arith)
            requires
                x == m * q + r,
                r + 1 == m,
        ;
        vstd::arithmetic::div_mod::lemma_fundamental_div_mod_converse(x + 1, m, q + 1, 0);
    }
}

/// The request counter after one more answered request, wrapping.
pub open spec fn next_count(c: nat) -> nat {
    if c == usize::MAX {
        0
    } else {
        c + 1
    }
}

/// `d` carries fragment `f` of session `sid` along `route`, one hop on.
pub open spec fn carries_fragment(d: Dispatch, sid: u64, f: Fragment, route: Seq<NodeId>) -> bool {
    &&& d.1.pack_type matches PacketType::MsgFragment(g) && same_fragment(g, f)
    &&& d.1.session_id == sid
    &&& d.1.routing_header.hops@ == route
    &&& d.1.routing_header.hop_index == 1
    &&& route.len() >= 2
    &&& d.0 == route[1]
}

/// Some stored route of `r` ends at `d`.
pub open spec fn reaches(r: SourceRouter, d: NodeId) -> bool {
    exists|i: int| 0 <= i < r.spec_routes().len() && #[trigger] r.spec_routes()[i].len() > 0 && r.spec_routes()[i].last() == d
}

impl Host {
    /// Sends fragment after fragment of `fragments`, each along the route
    /// that the router gives for `destination` at that moment.
    fn send_fragments(&mut self, destination: NodeId, session_id: u64, fragments: Vec<Fragment>) -> (r: Vec<Dispatch>)
        requires
            old(self).wf(),
            reaches(old(self).spec_router(), destination),
        ensures
            final(self).wf(),
            final(self).spec_id() == old(self).spec_id(),
            final(self).spec_kind() == old(self).spec_kind(),
            final(self).spec_state() == old(self).spec_state(),
            final(self).spec_delivered() == old(self).spec_delivered(),
            final(self).spec_assembler() == old(self).spec_assembler(),
            final(self).spec_disassembler() == old(self).spec_disassembler(),
            final(self).spec_router().spec_state() == old(self).spec_router().spec_state(),
            final(self).spec_router().spec_request_count() == count_after(old(self).spec_router().spec_request_count(), fragments@.len()),
            r@.len() == fragments@.len(),
            forall|i: int| 0 <= i < r@.len() ==> carries_fragment(#[trigger] r@[i], session_id, fragments@[i],
                chosen_route(old(self).spec_router().spec_graph().node_map(), old(self).spec_router().spec_routes(), destination,
                    count_after(old(self).spec_router().spec_request_count(), i as nat)).unwrap()),
    {
        let ghost g = self.router.spec_graph().node_map();
        let ghost routes = self.router.spec_routes();
        let ghost c0 = self.router.spec_request_count();
        proof {
            let w = choose|i: int| 0 <= i < routes.len() && #[trigger] routes[i].len() > 0 && routes[i].last() == destination;
            routes.lemma_filter_contains(crate::routing::ends_at(destination), w);
        }
        let mut out: Vec<Dispatch> = Vec::new();
        let mut i: usize = 0;
        proof {
            self.router.lemma_request_count_bound();
            vstd::arithmetic::div_mod::lemma_small_mod(c0, usize::MAX as nat + 1);
        }
        while i < fragments.len()
            invariant
                self.wf(),
                self.spec_id() == old(self).spec_id(),
                self.spec_kind() == old(self).spec_kind(),
                self.spec_state() == old(self).spec_state(),
                self.spec_delivered() == old(self).spec_delivered(),
                self.spec_assembler() == old(self).spec_assembler(),
                self.spec_disassembler() == old(self).spec_disassembler(),
                self.spec_router().spec_state() == old(self).spec_router().spec_state(),
                self.spec_router().spec_graph().node_map() == g,
                self.spec_router().spec_routes() == routes,
                crate::routing::candidates(routes, destination).len() > 0,
                self.spec_router().spec_request_count() == count_after(c0, i as nat),
                c0 == old(self).spec_router().spec_request_count(),
                g == old(self).spec_router().spec_graph().node_map(),
                routes == old(self).spec_router().spec_routes(),
                i <= fragments@.len(),
                out@.len() == i,
                forall|k: int| 0 <= k < i ==> carries_fragment(#[trigger] out@[k], session_id, fragments@[k],
                    chosen_route(g, routes, destination, count_after(c0, k as nat)).unwrap()),
            decreases fragments@.len() - i,
        {
            let ghost cnt = self.router.spec_request_count();
            let header = self.router.get_best_route(destination).unwrap();
            proof {
                let cs = crate::routing::candidates(routes, destination);
                crate::routing::lemma_ties(g, routes, destination);
                crate::routing::lemma_round_robin(g, routes, destination, cnt, 0, 0, 0);
                let pick = (cnt % crate::routing::tie_count(g, cs)) as int;
                crate::routing::lemma_candidates_are_routes(routes, destination, pick);
                let w = choose|w: int| 0 <= w < routes.len() && routes[w] == cs[pick];
                self.router.lemma_stored_routes_well_formed(w);
                lemma_count_step(c0, i as nat);
            }
            let fragment = fragments[i].clone();
            let packet = Packet::new_fragment(header, session_id, fragment);
            let d = prepare_forward(packet).unwrap();
            out.push(d);
            i = i + 1;
        }
        out
    }

    /// Sends a message of `bytes` to `destination` as session `session_id`,
    /// keeping its fragments for retransmission. Returns none, and changes
    /// nothing, when no stored route reaches the destination.
    pub fn send_message(&mut self, destination: NodeId, session_id: u64, bytes: &Vec<u8>) -> (r: Option<Vec<Dispatch>>)
        requires
            old(self).wf(),
            bytes@.len() + FRAGMENT_DSIZE <= usize::MAX,
        ensures
            final(self).wf(),
            final(self).spec_id() == old(self).spec_id(),
            final(self).spec_state() == old(self).spec_state(),
            final(self).spec_delivered() == old(self).spec_delivered(),
            final(self).spec_router().spec_state() == old(self).spec_router().spec_state(),
            match r {
                None => !reaches(old(self).spec_router(), destination) && *final(self) == *old(self),
                Some(ds) => reaches(old(self).spec_router(), destination)
                    && fragments_of(bytes@, final(self).spec_disassembler().held(session_id))
                    && final(self).spec_disassembler().destination(session_id) == (if ds@.len() > 0 { Some(destination) } else { None::<NodeId> })
                    && ds@.len() == final(self).spec_disassembler().held(session_id).len()
                    && forall|i: int| 0 <= i < ds@.len() ==> carries_fragment(#[trigger] ds@[i], session_id,
                        final(self).spec_disassembler().held(session_id)[i],
                        chosen_route(old(self).spec_router().spec_graph().node_map(), old(self).spec_router().spec_routes(), destination,
                            count_after(old(self).spec_router().spec_request_count(), i as nat)).unwrap()),
            },
    {
        if !self.router.can_reach(destination) {
            return None;
        }
        let fragments = self.disassembler.disassembly(session_id, destination, bytes);
        let ghost held = self.disassembler.held(session_id);
        proof {
            crate::assembler::lemma_same_fragments(bytes@, fragments@, held);
        }
        let ds = self.send_fragments(destination, session_id, fragments);
        proof {
            assert forall|i: int| 0 <= i < ds@.len() implies carries_fragment(#[trigger] ds@[i], session_id, held[i],
                chosen_route(old(self).spec_router().spec_graph().node_map(), old(self).spec_router().spec_routes(), destination,
                    count_after(old(self).spec_router().spec_request_count(), i as nat)).unwrap()) by {
                assert(same_fragment(fragments@[i], held[i]));
            }
        }
        Some(ds)
    }
}


/// `d` carries an acknowledgement of fragment `idx` of session `sid` back
/// along the reverse of `hops`, one hop on.
pub open spec fn carries_ack(d: Dispatch, sid: u64, idx: u64, hops: Seq<NodeId>) -> bool {
    &&& d.1.pack_type == PacketType::Ack(Ack { fragment_index: idx })
    &&& d.1.session_id == sid
    &&& d.1.routing_header.hops@ == hops.reverse()
    &&& d.1.routing_header.hop_index == 1
    &&& hops.len() >= 2
    &&& d.0 == hops.reverse()[1]
}

/// The kind that a host of kind `m` gives in a flood's path trace.
pub open spec fn simple_kind(m: NodeModel) -> SimpleNodeType {
    simple_of(m)
}

impl Host {
    /// Sends again the held fragment `idx` of session `sid`, along the route
    /// that the router now gives for the session's destination.
    fn retransmit(&mut self, sid: u64, idx: u64) -> (r: Option<Dispatch>)
        requires
            old(self).wf(),
        ensures
            final(self).wf(),
            final(self).spec_id() == old(self).spec_id(),
            final(self).spec_kind() == old(self).spec_kind(),
            final(self).spec_state() == old(self).spec_state(),
            final(self).spec_delivered() == old(self).spec_delivered(),
            final(self).spec_assembler() == old(self).spec_assembler(),
            final(self).spec_disassembler() == old(self).spec_disassembler(),
            final(self).spec_router().spec_state() == old(self).spec_router().spec_state(),
            final(self).spec_router().spec_source() == old(self).spec_router().spec_source(),
            match r {
                Some(d) => final(self).spec_router().spec_request_count() == next_count(old(self).spec_router().spec_request_count())
                    && exists|i: int| 0 <= i < old(self).spec_disassembler().held(sid).len()
                    && (#[trigger] old(self).spec_disassembler().held(sid)[i]).fragment_index == idx
                    && old(self).spec_disassembler().destination(sid) is Some
                    && chosen_route(old(self).spec_router().spec_graph().node_map(), old(self).spec_router().spec_routes(),
                        old(self).spec_disassembler().destination(sid).unwrap(), old(self).spec_router().spec_request_count()) is Some
                    && carries_fragment(d, sid, old(self).spec_disassembler().held(sid)[i],
                        chosen_route(old(self).spec_router().spec_graph().node_map(), old(self).spec_router().spec_routes(),
                            old(self).spec_disassembler().destination(sid).unwrap(), old(self).spec_router().spec_request_count()).unwrap()),
                None => final(self).spec_router().spec_request_count() == old(self).spec_router().spec_request_count()
                    && ((forall|i: int| 0 <= i < old(self).spec_disassembler().held(sid).len()
                    ==> (#[trigger] old(self).spec_disassembler().held(sid)[i]).fragment_index != idx)
                    || old(self).spec_disassembler().destination(sid) is None
                    || chosen_route(old(self).spec_router().spec_graph().node_map(), old(self).spec_router().spec_routes(),
                        old(self).spec_disassembler().destination(sid).unwrap(), old(self).spec_router().spec_request_count()) is None),
            },
    {
        let fragment = match self.disassembler.get_fragment(sid, idx) {
            Some(f) => f,
            None => return None,
        };
        let destination = match self.disassembler.get_destination(sid) {
            Some(d) => d,
            None => return None,
        };
        let ghost g = self.router.spec_graph().node_map();
        let ghost routes = self.router.spec_routes();
        let ghost cnt = self.router.spec_request_count();
        let header = match self.router.get_best_route(destination) {
            Some(h) => h,
            None => return None,
        };
        proof {
            let cs = crate::routing::candidates(routes, destination);
            crate::routing::lemma_ties(g, routes, destination);
            let pick = (cnt % crate::routing::tie_count(g, cs)) as int;
            vstd::arithmetic::div_mod::lemma_mod_bound(cnt as int, crate::routing::tie_count(g, cs) as int);
            crate::routing::lemma_candidates_are_routes(routes, destination, pick);
            let w = choose|w: int| 0 <= w < routes.len() && routes[w] == cs[pick];
            self.router.lemma_stored_routes_well_formed(w);
        }
        let packet = Packet::new_fragment(header, sid, fragment);
        prepare_forward(packet)
    }

    /// Acknowledges a fragment and stores it; a completed message that was
    /// not delivered before is handed out once, and its session forgotten.
    fn receive_fragment(&mut self, header: &SourceRoutingHeader, sid: u64, fragment: Fragment) -> (r: Outcome)
        requires
            old(self).wf(),
        ensures
            final(self).wf(),
            final(self).spec_id() == old(self).spec_id(),
            final(self).spec_kind() == old(self).spec_kind(),
            final(self).spec_state() == old(self).spec_state(),
            final(self).spec_router() == old(self).spec_router(),
            final(self).spec_disassembler() == old(self).spec_disassembler(),
            header.hops@.len() >= 2 ==> r.to_send@.len() == 1 && carries_ack(r.to_send@[0], sid, fragment.fragment_index, header.hops@),
            header.hops@.len() < 2 ==> r.to_send@.len() == 0,
            forall|o: u64| o != sid ==> #[trigger] final(self).spec_assembler().session(o) == old(self).spec_assembler().session(o),
            match r.delivered {
                Some(d) => d.session_id == sid
                    && !old(self).spec_delivered().contains(sid)
                    && final(self).spec_delivered() == old(self).spec_delivered().push(sid)
                    && fragment.length <= fragment.data@.len()
                    && final(self).spec_assembler().session(sid) == Seq::<Fragment>::empty()
                    && d.reply_route.hops@ == header.hops@.reverse() && d.reply_route.hop_index == 0
                    && exists|s2: Seq<Fragment>| stores(old(self).spec_assembler().session(sid), fragment, s2)
                        && crate::assembler::index_sorted(s2) && s2.len() == fragment.total_n_fragments
                        && d.bytes@ == #[trigger] concat_payloads(s2),
                None => final(self).spec_delivered() == old(self).spec_delivered()
                    && (if fragment.length <= fragment.data@.len() && !old(self).spec_delivered().contains(sid) {
                        stores(old(self).spec_assembler().session(sid), fragment, final(self).spec_assembler().session(sid))
                            && final(self).spec_assembler().session(sid).len() != fragment.total_n_fragments
                    } else {
                        final(self).spec_assembler().session(sid) == old(self).spec_assembler().session(sid)
                    }),
            },
    {
        let reversed = header.get_reversed();
        let idx = fragment.fragment_index;
        let mut to_send: Vec<Dispatch> = Vec::new();
        let ack = Packet::new_ack(reversed.clone(), sid, idx);
        match prepare_forward(ack) {
            Some(d) => to_send.push(d),
            None => {},
        }
        let mut delivered: Option<Delivery> = None;
        let mut seen = false;
        let mut i: usize = 0;
        while i < self.delivered.len()
            invariant
                i <= self.delivered@.len(),
                seen == exists|k: int| 0 <= k < i && self.delivered@[k] == sid,
            decreases self.delivered@.len() - i,
        {
            if self.delivered[i] == sid {
                seen = true;
            }
            i = i + 1;
        }
        if (fragment.length as usize) <= fragment.data.len() && !seen {
            match self.assembler.insert_fragment(sid, fragment) {
                Some(bytes) => {
                    self.assembler.forget(sid);
                    self.delivered.push(sid);
                    delivered = Some(Delivery { session_id: sid, bytes, reply_route: reversed });
                },
                None => {},
            }
        }
        Outcome { to_send, delivered }
    }

    /// Answers a flood request: this host joins the trace and the response
    /// goes back along it.
    fn receive_flood_request(&self, request: FloodRequest, sid: u64) -> (r: Option<Dispatch>)
        requires
            self.wf(),
        ensures
            match r {
                Some(d) => {
                    let hops = crate::packet::trace_ids(request.path_trace@.push((self.spec_id(), simple_kind(self.spec_kind())))).reverse();
                    &&& hops.len() >= 2
                    &&& d.0 == hops[1]
                    &&& d.1.session_id == sid
                    &&& d.1.routing_header.hops@ == hops
                    &&& d.1.routing_header.hop_index == 1
                    &&& d.1.pack_type matches PacketType::FloodResponse(resp) && resp.flood_id == request.flood_id
                        && resp.path_trace@ == request.path_trace@.push((self.spec_id(), simple_kind(self.spec_kind())))
                },
                None => request.path_trace@.len() == 0,
            },
    {
        let mut request = request;
        request.increment(self.id, self.node_type.to_simple());
        let response = request.generate_response(sid);
        proof {
            assert(crate::packet::trace_ids(request.path_trace@).len() == request.path_trace@.len());
        }
        prepare_forward(response)
    }

    /// The reply to a message that the application could not read: an
    /// `UnexpectedRecipient` naming this host, back along `reply_route`.
    pub fn reject_message(&self, session_id: u64, reply_route: SourceRoutingHeader) -> (r: Option<Dispatch>)
        ensures
            match r {
                Some(d) => reply_route.hop_index + 1 < reply_route.hops@.len()
                    && d.0 == reply_route.hops@[reply_route.hop_index + 1]
                    && d.1.pack_type == PacketType::Nack(Nack { fragment_index: 0, nack_type: NackType::UnexpectedRecipient(self.spec_id()) })
                    && d.1.session_id == session_id
                    && d.1.routing_header.hops@ == reply_route.hops@
                    && d.1.routing_header.hop_index == reply_route.hop_index + 1,
                None => !(reply_route.hop_index + 1 < reply_route.hops@.len()),
            },
    {
        let nack = Packet::new_nack(reply_route, session_id, Nack { fragment_index: 0, nack_type: NackType::UnexpectedRecipient(self.id) });
        prepare_forward(nack)
    }
}


/// The router state of `h` after learning from `p`, as seen by the node
/// that stands for `h` in its own graph.
pub open spec fn learned(h: Host, p: Packet) -> crate::routing::RouterState {
    apply_infos(h.spec_router().spec_state(), packet_infos(p, h.spec_router().spec_graph().node_map()[h.spec_id()]))
}

impl Host {
    /// Handles one received packet: learns from it, then acknowledges and
    /// reassembles a fragment, forgets an acknowledged fragment, retransmits
    /// on `Dropped` or `ErrorInRouting`, marks the peer named by
    /// `UnexpectedRecipient` as unwanted, or answers a flood request.
    pub fn handle_packet(&mut self, packet: Packet) -> (r: Outcome)
        requires
            old(self).wf(),
        ensures
            final(self).wf(),
            final(self).spec_id() == old(self).spec_id(),
            final(self).spec_kind() == old(self).spec_kind(),
            final(self).spec_state() == old(self).spec_state(),
            final(self).spec_router().spec_source() == old(self).spec_router().spec_source(),
            match r.delivered {
                Some(d) => packet.pack_type is MsgFragment
                    && d.session_id == packet.session_id
                    && !old(self).spec_delivered().contains(d.session_id)
                    && final(self).spec_delivered() == old(self).spec_delivered().push(d.session_id),
                None => final(self).spec_delivered() == old(self).spec_delivered(),
            },
            match packet.pack_type {
                PacketType::MsgFragment(f) => {
                    &&& final(self).spec_router().spec_state() == learned(*old(self), packet)
                    &&& final(self).spec_disassembler() == old(self).spec_disassembler()
                    &&& packet.routing_header.hops@.len() >= 2 ==> r.to_send@.len() == 1
                        && carries_ack(r.to_send@[0], packet.session_id, f.fragment_index, packet.routing_header.hops@)
                    &&& packet.routing_header.hops@.len() < 2 ==> r.to_send@.len() == 0
                    &&& final(self).spec_router().spec_request_count() == old(self).spec_router().spec_request_count()
                    &&& forall|o: u64| o != packet.session_id ==> #[trigger] final(self).spec_assembler().session(o) == old(self).spec_assembler().session(o)
                    &&& r.delivered matches Some(d) ==> (d.reply_route.hops@ == packet.routing_header.hops@.reverse()
                        && final(self).spec_assembler().session(packet.session_id) == Seq::<Fragment>::empty()
                        && exists|s2: Seq<Fragment>| stores(old(self).spec_assembler().session(packet.session_id), f, s2)
                            && crate::assembler::index_sorted(s2) && s2.len() == f.total_n_fragments
                            && d.bytes@ == #[trigger] concat_payloads(s2))
                    &&& r.delivered is None ==> (if f.length <= f.data@.len() && !old(self).spec_delivered().contains(packet.session_id) {
                        stores(old(self).spec_assembler().session(packet.session_id), f, final(self).spec_assembler().session(packet.session_id))
                            && final(self).spec_assembler().session(packet.session_id).len() != f.total_n_fragments
                    } else {
                        final(self).spec_assembler().session(packet.session_id) == old(self).spec_assembler().session(packet.session_id)
                    })
                },
                PacketType::Ack(a) => {
                    &&& final(self).spec_router().spec_state() == learned(*old(self), packet)
                    &&& final(self).spec_router().spec_request_count() == old(self).spec_router().spec_request_count()
                    &&& final(self).spec_assembler() == old(self).spec_assembler()
                    &&& r.delivered is None
                    &&& Disassembler::acked(old(self).spec_disassembler(), packet.session_id, a.fragment_index, final(self).spec_disassembler())
                    &&& r.to_send@.len() == 0
                },
                PacketType::Nack(n) => {
                    &&& final(self).spec_disassembler() == old(self).spec_disassembler()
                    &&& final(self).spec_assembler() == old(self).spec_assembler()
                    &&& r.delivered is None
                    &&& match n.nack_type {
                        NackType::UnexpectedRecipient(who) => {
                            &&& final(self).spec_router().spec_state() == (
                                mark_unwanted(learned(*old(self), packet).0, who),
                                learned(*old(self), packet).1,
                                learned(*old(self), packet).2.filter(not_ending_at(who)),
                            )
                            &&& final(self).spec_router().spec_request_count() == old(self).spec_router().spec_request_count()
                            &&& r.to_send@.len() == 0
                        },
                        NackType::DestinationIsDrone => {
                            &&& final(self).spec_router().spec_state() == learned(*old(self), packet)
                            &&& final(self).spec_router().spec_request_count() == old(self).spec_router().spec_request_count()
                            &&& r.to_send@.len() == 0
                        },
                        _ => {
                            &&& final(self).spec_router().spec_state() == learned(*old(self), packet)
                            &&& r.to_send@.len() <= 1
                            &&& r.to_send@.len() == 0 ==> final(self).spec_router().spec_request_count() == old(self).spec_router().spec_request_count()
                                && ((forall|i: int| 0 <= i < old(self).spec_disassembler().held(packet.session_id).len()
                                    ==> (#[trigger] old(self).spec_disassembler().held(packet.session_id)[i]).fragment_index != n.fragment_index)
                                || old(self).spec_disassembler().destination(packet.session_id) is None
                                || chosen_route(learned(*old(self), packet).0, learned(*old(self), packet).2,
                                    old(self).spec_disassembler().destination(packet.session_id).unwrap(),
                                    old(self).spec_router().spec_request_count()) is None)
                            &&& r.to_send@.len() == 1 ==> final(self).spec_router().spec_request_count() == next_count(old(self).spec_router().spec_request_count())
                            &&& r.to_send@.len() == 1 ==> exists|i: int| 0 <= i < old(self).spec_disassembler().held(packet.session_id).len()
                                && (#[trigger] old(self).spec_disassembler().held(packet.session_id)[i]).fragment_index == n.fragment_index
                                && old(self).spec_disassembler().destination(packet.session_id) is Some
                                && chosen_route(learned(*old(self), packet).0, learned(*old(self), packet).2,
                                    old(self).spec_disassembler().destination(packet.session_id).unwrap(),
                                    old(self).spec_router().spec_request_count()) is Some
                                && carries_fragment(r.to_send@[0], packet.session_id, old(self).spec_disassembler().held(packet.session_id)[i],
                                    chosen_route(learned(*old(self), packet).0, learned(*old(self), packet).2,
                                        old(self).spec_disassembler().destination(packet.session_id).unwrap(),
                                        old(self).spec_router().spec_request_count()).unwrap())
                        },
                    }
                },
                PacketType::FloodRequest(req) => {
                    &&& final(self).spec_router().spec_state() == learned(*old(self), packet)
                    &&& final(self).spec_router().spec_request_count() == old(self).spec_router().spec_request_count()
                    &&& final(self).spec_disassembler() == old(self).spec_disassembler()
                    &&& final(self).spec_assembler() == old(self).spec_assembler()
                    &&& r.delivered is None
                    &&& r.to_send@.len() == (if req.path_trace@.len() > 0 { 1int } else { 0int })
                    &&& r.to_send@.len() == 1 ==> (r.to_send@[0].1.pack_type matches PacketType::FloodResponse(resp)
                        && resp.flood_id == req.flood_id
                        && resp.path_trace@ == req.path_trace@.push((old(self).spec_id(), simple_kind(old(self).spec_kind())))
                        && r.to_send@[0].1.routing_header.hops@ == crate::packet::trace_ids(resp.path_trace@).reverse()
                        && r.to_send@[0].1.routing_header.hop_index == 1
                        && r.to_send@[0].0 == crate::packet::trace_ids(resp.path_trace@).reverse()[1])
                },
                PacketType::FloodResponse(_) => {
                    &&& final(self).spec_router().spec_state() == learned(*old(self), packet)
                    &&& final(self).spec_router().spec_request_count() == old(self).spec_router().spec_request_count()
                    &&& final(self).spec_assembler() == old(self).spec_assembler()
                    &&& r.delivered is None
                    &&& final(self).spec_disassembler() == old(self).spec_disassembler()
                    &&& r.to_send@.len() == 0
                },
            },
    {
        self.router.update_graph(&packet);
        let sid = packet.session_id;
        let header = packet.routing_header;
        let mut to_send: Vec<Dispatch> = Vec::new();
        match packet.pack_type {
            PacketType::MsgFragment(frag) => {
                return self.receive_fragment(&header, sid, frag);
            },
            PacketType::Ack(ack) => {
                self.disassembler.forget_fragment(sid, ack.fragment_index);
            },
            PacketType::Nack(nack) => match nack.nack_type {
                NackType::ErrorInRouting(_) | NackType::Dropped => {
                    match self.retransmit(sid, nack.fragment_index) {
                        Some(d) => to_send.push(d),
                        None => {},
                    }
                },
                NackType::DestinationIsDrone => {},
                NackType::UnexpectedRecipient(who) => {
                    let ghost mid = self.router;
                    self.router.unwanted_node(who);
                    proof {
                        assert(edge_set(self.router.spec_graph()) =~= edge_set(mid.spec_graph()));
                    }
                },
            },
            PacketType::FloodRequest(request) => {
                match self.receive_flood_request(request, sid) {
                    Some(d) => to_send.push(d),
                    None => {},
                }
            },
            PacketType::FloodResponse(_) => {},
        }
        Outcome { to_send, delivered: None }
    }

    /// Starts a flood: a request with a fresh random flood id, to be handed
    /// as it is to every connected drone. Returns the flood id with it.
    pub fn initiate_flood(&mut self) -> (r: (u64, Packet))
        requires
            old(self).wf(),
        ensures
            final(self).wf(),
            final(self).spec_id() == old(self).spec_id(),
            final(self).spec_state() == old(self).spec_state(),
            final(self).spec_router() == old(self).spec_router(),
            final(self).spec_delivered() == old(self).spec_delivered(),
            r.1.routing_header.hops@ == Seq::<NodeId>::empty(),
            r.1.routing_header.hop_index == 0,
            (r.1.pack_type matches PacketType::FloodRequest(req) && req.flood_id == r.0
                && req.initiator_id == old(self).spec_id()
                && req.path_trace@ == seq![(old(self).spec_id(), simple_kind(old(self).spec_kind()))]),
    {
        let flood_id = random_u64();
        let session_id = random_u64();
        let request = FloodRequest::initialize(flood_id, self.id, self.node_type.to_simple());
        (flood_id, Packet::new_flood_request(SourceRoutingHeader::empty_route(), session_id, request))
    }

    /// The `AddConnectedDrone` command: links this host to the drone `id`.
    pub fn add_connected_drone(&mut self, id: NodeId)
        requires
            old(self).wf(),
        ensures
            final(self).wf(),
            final(self).spec_id() == old(self).spec_id(),
            final(self).spec_state() == old(self).spec_state(),
            final(self).spec_router().spec_graph().node_map() == old(self).spec_router().spec_graph().node_map(),
            forall|x: NodeId, y: NodeId| #[trigger] final(self).spec_router().spec_graph().edge(x, y) == (old(self).spec_router().spec_graph().edge(x, y)
                || (old(self).spec_id() != id && ((x == old(self).spec_id() && y == id) || (x == id && y == old(self).spec_id())))),
            final(self).spec_router().spec_routes() == old(self).spec_router().spec_routes(),
    {
        self.router.add_edge(self.id, id);
    }

    /// The `RemoveConnectedDrone` command: unlinks this host from the drone
    /// `id` and drops the routes through that link.
    pub fn remove_connected_drone(&mut self, id: NodeId)
        requires
            old(self).wf(),
        ensures
            final(self).wf(),
            final(self).spec_id() == old(self).spec_id(),
            final(self).spec_state() == old(self).spec_state(),
            final(self).spec_router().spec_graph().node_map() == old(self).spec_router().spec_graph().node_map(),
            forall|x: NodeId, y: NodeId| #[trigger] final(self).spec_router().spec_graph().edge(x, y) == (old(self).spec_router().spec_graph().edge(x, y)
                && !((x == old(self).spec_id() && y == id) || (x == id && y == old(self).spec_id()))),
            final(self).spec_router().spec_routes() == old(self).spec_router().spec_routes().filter(crate::routing::avoids_link(old(self).spec_id(), id)),
    {
        self.router.remove_edge(self.id, id);
    }

    /// Recomputes the routes and returns how many there are.
    pub fn calculate_routes(&mut self) -> (r: usize)
        requires
            old(self).wf(),
        ensures
            final(self).wf(),
            final(self).spec_id() == old(self).spec_id(),
            final(self).spec_state() == old(self).spec_state(),
            final(self).spec_router().spec_graph() == old(self).spec_router().spec_graph(),
            r == final(self).spec_router().spec_routes().len(),
            forall|i: int| 0 <= i < r ==> crate::routing::is_useful_route(final(self).spec_router().spec_graph(), final(self).spec_id(),
                #[trigger] final(self).spec_router().spec_routes()[i]),
            crate::routing::sorted_by_cost(final(self).spec_router().spec_graph().node_map(), final(self).spec_router().spec_routes()),
            forall|p: Seq<NodeId>| #[trigger] crate::routing::is_useful_route(final(self).spec_router().spec_graph(), final(self).spec_id(), p)
                ==> final(self).spec_router().spec_routes().contains(p),
            final(self).spec_router().spec_routes().no_duplicates(),
            forall|a: int, b: int| 0 <= a < b < r
                && #[trigger] crate::routing::path_cost(final(self).spec_router().spec_graph().node_map(), final(self).spec_router().spec_routes()[a])
                == #[trigger] crate::routing::path_cost(final(self).spec_router().spec_graph().node_map(), final(self).spec_router().spec_routes()[b])
                ==> final(self).spec_router().spec_routes()[a].len() <= final(self).spec_router().spec_routes()[b].len(),
    {
        self.router.calculate_routes()
    }

    /// Forgets the topology but this host.
    pub fn forget_topology(&mut self)
        requires
            old(self).wf(),
        ensures
            final(self).wf(),
            final(self).spec_id() == old(self).spec_id(),
            final(self).spec_state() == old(self).spec_state(),
            final(self).spec_router().spec_routes() == Seq::<Seq<NodeId>>::empty(),
            final(self).spec_router().spec_graph().node_map() == Map::<NodeId, NodeModel>::empty().insert(
                old(self).spec_id(), old(self).spec_router().spec_graph().node_map()[old(self).spec_id()]),
    {
        self.router.forget_topology();
    }

    /// Whether some stored route reaches `destination`.
    pub fn can_reach(&self, destination: NodeId) -> (r: bool)
        ensures
            r == reaches(self.spec_router(), destination),
    {
        self.router.can_reach(destination)
    }

    /// Sends a server's response: routes are recomputed first when none
    /// reaches the destination; none is sent if still none does.
    pub fn send_response(&mut self, destination: NodeId, session_id: u64, bytes: &Vec<u8>) -> (r: Option<Vec<Dispatch>>)
        requires
            old(self).wf(),
            bytes@.len() + FRAGMENT_DSIZE <= usize::MAX,
        ensures
            final(self).wf(),
            final(self).spec_id() == old(self).spec_id(),
            final(self).spec_state() == old(self).spec_state(),
            final(self).spec_delivered() == old(self).spec_delivered(),
            final(self).spec_router().spec_graph().node_map() == old(self).spec_router().spec_graph().node_map(),
            reaches(old(self).spec_router(), destination) ==> final(self).spec_router().spec_routes() == old(self).spec_router().spec_routes(),
            r is None ==> !reaches(final(self).spec_router(), destination),
            r matches Some(ds) ==> (fragments_of(bytes@, final(self).spec_disassembler().held(session_id))
                && ds@.len() == final(self).spec_disassembler().held(session_id).len()
                && forall|i: int| 0 <= i < ds@.len() ==> carries_fragment(#[trigger] ds@[i], session_id,
                    final(self).spec_disassembler().held(session_id)[i],
                    chosen_route(final(self).spec_router().spec_graph().node_map(), final(self).spec_router().spec_routes(), destination,
                        count_after(old(self).spec_router().spec_request_count(), i as nat)).unwrap())),
    {
        if !self.router.can_reach(destination) {
            self.router.calculate_routes();
        }
        self.send_message(destination, session_id, bytes)
    }
}

} // verus!
