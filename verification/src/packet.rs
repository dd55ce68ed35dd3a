//! Packets exchanged between the nodes of the network.

use crate::ids::NodeId;
use vstd::prelude::*;

verus! {

/// Number of bytes that one fragment carries.
pub const FRAGMENT_SIZE: usize = 128;

/// What a node of the network is.
#[derive(Clone, Copy, Debug, PartialEq, Eq, Structural)]
pub enum NodeType {
    Client,
    Drone,
    Server,
}

/// The route of a packet and the place it has reached on it.
#[derive(Debug, PartialEq, Eq)]
pub struct SourceRoutingHeader {
    pub hop_index: usize,
    pub hops: Vec<NodeId>,
}

/// Model of a [`SourceRoutingHeader`].
pub struct HeaderView {
    pub hop_index: usize,
    pub hops: Seq<NodeId>,
}

impl View for SourceRoutingHeader {
    type V = HeaderView;

    open spec fn view(&self) -> HeaderView {
        HeaderView { hop_index: self.hop_index, hops: self.hops@ }
    }
}

impl Clone for SourceRoutingHeader {
    fn clone(&self) -> (res: Self)
        ensures
            res@ == self@,
    {
        SourceRoutingHeader { hop_index: self.hop_index, hops: copy_ids(&self.hops) }
    }
}

impl SourceRoutingHeader {
    /// The node that the packet set out from, where the route names one.
    pub fn source(&self) -> (res: Option<NodeId>)
        ensures
            res == self@.source(),
    {
        if self.hops.len() > 0 {
            Some(self.hops[0])
        } else {
            None
        }
    }
}

impl HeaderView {
    /// First hop of the route.
    pub open spec fn source(self) -> Option<NodeId> {
        self.hop_at(0)
    }

    /// The hop at a place of the route, where the route is that long.
    pub open spec fn hop_at(self, i: int) -> Option<NodeId> {
        if 0 <= i < self.hops.len() {
            Some(self.hops[i])
        } else {
            None
        }
    }
}

/// One piece of a message. `length` says how many of the bytes of `data` the
/// sender filled.
#[derive(Clone, Copy, Debug, PartialEq, Eq)]
pub struct Fragment {
    pub fragment_index: u64,
    pub total_n_fragments: u64,
    pub length: u8,
    pub data: [u8; 128],
}

/// Confirmation that a fragment has arrived.
#[derive(Clone, Copy, Debug, PartialEq, Eq)]
pub struct Ack {
    pub fragment_index: u64,
}

/// Why a fragment did not arrive.
#[derive(Clone, Copy, Debug, PartialEq, Eq)]
pub enum NackType {
    ErrorInRouting(NodeId),
    DestinationIsDrone,
    Dropped,
    UnexpectedRecipient(NodeId),
}

/// Notice that a fragment did not arrive.
#[derive(Clone, Copy, Debug, PartialEq, Eq)]
pub struct Nack {
    pub fragment_index: u64,
    pub nack_type: NackType,
}

/// Question that spreads over the network and gathers the nodes it passes.
#[derive(Debug, PartialEq, Eq)]
pub struct FloodRequest {
    pub flood_id: u64,
    pub initiator_id: NodeId,
    pub path_trace: Vec<(NodeId, NodeType)>,
}

/// Answer to a [`FloodRequest`]: the nodes it passed, in order.
#[derive(Debug, PartialEq, Eq)]
pub struct FloodResponse {
    pub flood_id: u64,
    pub path_trace: Vec<(NodeId, NodeType)>,
}

/// What a packet carries.
#[derive(Debug, PartialEq, Eq)]
pub enum PacketType {
    MsgFragment(Fragment),
    Ack(Ack),
    Nack(Nack),
    FloodRequest(FloodRequest),
    FloodResponse(FloodResponse),
}

/// Model of a [`PacketType`].
pub enum BodyView {
    MsgFragment(Fragment),
    Ack(Ack),
    Nack(Nack),
    FloodRequest { flood_id: u64, initiator_id: NodeId, path_trace: Seq<(NodeId, NodeType)> },
    FloodResponse { flood_id: u64, path_trace: Seq<(NodeId, NodeType)> },
}

impl View for PacketType {
    type V = BodyView;

    open spec fn view(&self) -> BodyView {
        match *self {
            PacketType::MsgFragment(f) => BodyView::MsgFragment(f),
            PacketType::Ack(a) => BodyView::Ack(a),
            PacketType::Nack(n) => BodyView::Nack(n),
            PacketType::FloodRequest(r) => BodyView::FloodRequest {
                flood_id: r.flood_id,
                initiator_id: r.initiator_id,
                path_trace: r.path_trace@,
            },
            PacketType::FloodResponse(r) => BodyView::FloodResponse {
                flood_id: r.flood_id,
                path_trace: r.path_trace@,
            },
        }
    }
}

impl Clone for PacketType {
    fn clone(&self) -> (res: Self)
        ensures
            res@ == self@,
    {
        match self {
            PacketType::MsgFragment(f) => PacketType::MsgFragment(*f),
            PacketType::Ack(a) => PacketType::Ack(*a),
            PacketType::Nack(n) => PacketType::Nack(*n),
            PacketType::FloodRequest(r) => PacketType::FloodRequest(
                FloodRequest {
                    flood_id: r.flood_id,
                    initiator_id: r.initiator_id,
                    path_trace: copy_trace(&r.path_trace),
                },
            ),
            PacketType::FloodResponse(r) => PacketType::FloodResponse(
                FloodResponse { flood_id: r.flood_id, path_trace: copy_trace(&r.path_trace) },
            ),
        }
    }
}

/// A packet: its content, its route and the session it belongs to.
#[derive(Debug, PartialEq, Eq)]
pub struct Packet {
    pub pack_type: PacketType,
    pub routing_header: SourceRoutingHeader,
    pub session_id: u64,
}

/// Model of a [`Packet`].
pub struct PacketView {
    pub pack_type: BodyView,
    pub routing_header: HeaderView,
    pub session_id: u64,
}

impl View for Packet {
    type V = PacketView;

    open spec fn view(&self) -> PacketView {
        PacketView {
            pack_type: self.pack_type@,
            routing_header: self.routing_header@,
            session_id: self.session_id,
        }
    }
}

impl Clone for Packet {
    fn clone(&self) -> (res: Self)
        ensures
            res@ == self@,
    {
        Packet {
            pack_type: self.pack_type.clone(),
            routing_header: self.routing_header.clone(),
            session_id: self.session_id,
        }
    }
}

impl Packet {
    /// A packet that confirms one fragment.
    pub fn new_ack(routing_header: SourceRoutingHeader, session_id: u64, fragment_index: u64) -> (res: Self)
        ensures
            res@ == ack_packet(routing_header@, session_id, fragment_index),
    {
        Packet { pack_type: PacketType::Ack(Ack { fragment_index }), routing_header, session_id }
    }
}

/// The packet that confirms fragment `fragment_index` of a session.
pub open spec fn ack_packet(header: HeaderView, session_id: u64, fragment_index: u64) -> PacketView {
    PacketView {
        pack_type: BodyView::Ack(Ack { fragment_index }),
        routing_header: header,
        session_id,
    }
}

impl PacketView {
    /// The same packet on another route, at its first hop.
    pub open spec fn rerouted(self, hops: Seq<NodeId>) -> PacketView {
        PacketView { routing_header: HeaderView { hop_index: 1, hops }, ..self }
    }
}

/// The packets of a list, by their models.
pub open spec fn packet_views(packets: Seq<Packet>) -> Seq<PacketView> {
    packets.map_values(|p: Packet| p@)
}

/// The identifiers that a trace names, in its order.
pub open spec fn trace_ids(trace: Seq<(NodeId, NodeType)>) -> Seq<NodeId> {
    trace.map_values(|e: (NodeId, NodeType)| e.0)
}

/// Copies a list of node identifiers.
pub(crate) fn copy_ids(ids: &Vec<NodeId>) -> (res: Vec<NodeId>)
    ensures
        res@ == ids@,
{
    let mut res: Vec<NodeId> = Vec::new();
    for i in 0..ids.len()
        invariant
            res@ == ids@.take(i as int),
    {
        res.push(ids[i]);
        assert(ids@.take(i + 1) == ids@.take(i as int).push(ids@[i as int]));
    }
    assert(ids@.take(ids@.len() as int) == ids@);
    res
}

/// A list of node identifiers, last first.
pub(crate) fn reversed(ids: &Vec<NodeId>) -> (res: Vec<NodeId>)
    ensures
        res@ == ids@.reverse(),
{
    let mut res: Vec<NodeId> = Vec::new();
    let mut i: usize = ids.len();
    while i > 0
        invariant
            i <= ids@.len(),
            res@ == ids@.skip(i as int).reverse(),
        decreases i,
    {
        i = i - 1;
        res.push(ids[i]);
        assert(res@ == ids@.skip(i as int).reverse());
    }
    assert(ids@.skip(0) == ids@);
    res
}

/// Copies a trace.
pub(crate) fn copy_trace(trace: &Vec<(NodeId, NodeType)>) -> (res: Vec<(NodeId, NodeType)>)
    ensures
        res@ == trace@,
{
    let mut res: Vec<(NodeId, NodeType)> = Vec::new();
    for i in 0..trace.len()
        invariant
            res@ == trace@.take(i as int),
    {
        res.push(trace[i]);
        assert(trace@.take(i + 1) == trace@.take(i as int).push(trace@[i as int]));
    }
    assert(trace@.take(trace@.len() as int) == trace@);
    res
}

/// Copies a list of packets.
pub(crate) fn copy_packets(packets: &Vec<Packet>) -> (res: Vec<Packet>)
    ensures
        packet_views(res@) == packet_views(packets@),
{
    let mut res: Vec<Packet> = Vec::new();
    for i in 0..packets.len()
        invariant
            res@.len() == i,
            forall|j: int| 0 <= j < i ==> (#[trigger] res@[j])@ == packets@[j]@,
    {
        res.push(packets[i].clone());
    }
    assert(packet_views(res@) == packet_views(packets@));
    res
}

} // verus!
