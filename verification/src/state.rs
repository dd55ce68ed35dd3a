//! The state of the client as the contracts see it, and what each step makes of it.

use crate::assembler::{addressable, PartialView};
use crate::ids::{ascending, NodeId};
use crate::messages::{
    message_event, ActionView, ClientCommand, ClientMessages, ClientType, Content, EventView,
    ReportView, TestMessage,
};
use crate::packet::{
    ack_packet, trace_ids, BodyView, Fragment, HeaderView, Nack, NackType, NodeType, PacketView,
};
use crate::routing::RouteQuery;
use crate::text::{
    dropped_text, excluded_text, no_route_text, received_text, rediscovery_text, stuck_text,
};
use crate::trails::TrailQuery;
use vstd::prelude::*;

verus! {

/// How often a fragment is sent again by the same route because the same drone
/// dropped it.
pub const RETRY_LIMIT: u8 = 3;

/// Model of a client.
#[verifier::ext_equal]
pub struct ClientView<C: Content> {
    /// The client's own identifier.
    pub id: NodeId,
    /// What the client is used for.
    pub client_type: ClientType,
    /// The nodes that packets can be handed to directly.
    pub neighbors: Set<NodeId>,
    /// Messages of which some fragments have arrived, by session and sender.
    pub message_storage: Map<(usize, NodeId), PartialView>,
    /// The links that are known.
    pub topology: Set<(NodeId, NodeId)>,
    /// The nodes that are known, and what they are.
    pub node_types: Map<NodeId, NodeType>,
    /// The fragments of each session that has not been confirmed as a whole.
    pub pending_messages: Map<u64, Seq<PacketView>>,
    /// The fragments of each session that have been confirmed.
    pub acked_fragments: Map<u64, Set<u64>>,
    /// How often a fragment of a session was dropped by a node.
    pub nack_counter: Map<(u64, u64, NodeId), u8>,
    /// The nodes that new routes keep clear of.
    pub excluded_nodes: Set<NodeId>,
    /// What is left to do, in order.
    pub outbox: Seq<ActionView<C>>,
}

/// Model of what a client keeps to itself.
#[verifier::ext_equal]
pub struct LedgerView<C: Content> {
    /// The fragments of each session that has not been confirmed as a whole.
    pub pending_messages: Map<u64, Seq<PacketView>>,
    /// The fragments of each session that have been confirmed.
    pub acked_fragments: Map<u64, Set<u64>>,
    /// How often a fragment of a session was dropped by a node.
    pub nack_counter: Map<(u64, u64, NodeId), u8>,
    /// The nodes that new routes keep clear of.
    pub excluded_nodes: Set<NodeId>,
    /// What is left to do, in order.
    pub outbox: Seq<ActionView<C>>,
}

/// Whether every fragment of a session of `total` fragments is among the confirmed ones.
pub open spec fn all_confirmed(confirmed: Set<u64>, total: nat) -> bool {
    forall|i: u64| i < total ==> #[trigger] confirmed.contains(i)
}

/// Whether a link joins the nodes at places `i` and `i + 1` of a trace, in this
/// direction or the other.
pub open spec fn joins(trace: Seq<(NodeId, NodeType)>, i: int, link: (NodeId, NodeId)) -> bool {
    link == (trace[i].0, trace[i + 1].0) || link == (trace[i + 1].0, trace[i].0)
}

/// Whether a link joins two neighbouring nodes of a trace.
pub open spec fn trace_links(trace: Seq<(NodeId, NodeType)>, link: (NodeId, NodeId)) -> bool {
    exists|i: int| 0 <= i < trace.len() - 1 && #[trigger] joins(trace, i, link)
}

/// The known types of nodes once a trace was read. What it says of a node replaces
/// what was known, and what it says later what it says first.
pub open spec fn learn_types(
    node_types: Map<NodeId, NodeType>,
    trace: Seq<(NodeId, NodeType)>,
) -> Map<NodeId, NodeType>
    decreases trace.len(),
{
    if trace.len() == 0 {
        node_types
    } else {
        learn_types(node_types, trace.drop_last()).insert(trace.last().0, trace.last().1)
    }
}

impl<C: Content> ClientView<C> {
    /// A client that knows nothing yet.
    pub open spec fn initial(id: NodeId, neighbors: Set<NodeId>, client_type: ClientType) -> Self {
        ClientView {
            id,
            client_type,
            neighbors,
            message_storage: Map::empty(),
            topology: Set::empty(),
            node_types: Map::empty(),
            pending_messages: Map::empty(),
            acked_fragments: Map::empty(),
            nack_counter: Map::empty(),
            excluded_nodes: Set::empty(),
            outbox: Seq::empty(),
        }
    }

    /// What always holds: no drop is counted that is past the retry limit.
    pub open spec fn wf(self) -> bool {
        forall|key: (u64, u64, NodeId)| #[trigger]
            self.nack_counter.contains_key(key) ==> 1 <= self.nack_counter[key] <= RETRY_LIMIT
    }

    // ---- what is handed out ----

    /// Something more to do.
    pub open spec fn emit(self, action: ActionView<C>) -> Self {
        ClientView { outbox: self.outbox.push(action), ..self }
    }

    /// The simulation controller is to be told something.
    pub open spec fn notify(self, event: EventView<C>) -> Self {
        self.emit(ActionView::Notify(event))
    }

    /// The simulation controller is to be told what goes on.
    pub open spec fn debug(self, text: Seq<char>) -> Self {
        self.notify(EventView::DebugMessage(self.id, text))
    }

    /// The simulation controller is to be told what went wrong.
    pub open spec fn error(self, text: Seq<char>) -> Self {
        self.notify(EventView::Error(self.id, text))
    }

    /// A packet is to be sent, where the recipient is a neighbour; else nothing is.
    pub open spec fn send(self, packet: PacketView, recipient: NodeId) -> Self {
        if self.neighbors.contains(recipient) {
            self.emit(ActionView::Send { packet, recipient })
        } else {
            self
        }
    }

    /// Packets are to be sent one after the other, where the recipient is a neighbour.
    pub open spec fn send_all(self, packets: Seq<PacketView>, recipient: NodeId) -> Self {
        if self.neighbors.contains(recipient) {
            ClientView {
                outbox: self.outbox + packets.map_values(
                    |packet: PacketView| ActionView::Send { packet, recipient },
                ),
                ..self
            }
        } else {
            self
        }
    }

    // ---- exploring the network ----

    /// Whether the identifier of a flood can be made from a fresh number.
    pub open spec fn flood_id_fits(self, fresh_id: u64) -> bool {
        fresh_id + self.id * 31 <= u64::MAX
    }

    /// The flood request that goes to a neighbour.
    pub open spec fn flood_packet(self, fresh_id: u64, neighbor: NodeId) -> PacketView {
        let flood_id = (fresh_id + self.id * 31) as u64;
        PacketView {
            pack_type: BodyView::FloodRequest {
                flood_id,
                initiator_id: self.id,
                path_trace: seq![(self.id, NodeType::Client)],
            },
            routing_header: HeaderView { hop_index: 0, hops: seq![self.id, neighbor] },
            session_id: flood_id,
        }
    }

    /// Everything known of the network is forgotten, and every neighbour is to get a
    /// flood request.
    pub open spec fn discovering(self, fresh_id: u64) -> Self {
        ClientView {
            topology: Set::empty(),
            node_types: Map::empty(),
            outbox: self.outbox + ascending(self.neighbors).map_values(
                |n: NodeId| ActionView::Send { packet: self.flood_packet(fresh_id, n), recipient: n },
            ),
            ..self
        }
    }

    /// The links and nodes of a trace are known.
    pub open spec fn with_trace(self, trace: Seq<(NodeId, NodeType)>) -> Self {
        ClientView {
            topology: self.topology.union(Set::new(|link: (NodeId, NodeId)| trace_links(trace, link))),
            node_types: learn_types(self.node_types, trace),
            ..self
        }
    }

    /// The known servers.
    pub open spec fn servers(self) -> Set<NodeId> {
        Set::new(|n: NodeId| self.node_types.contains_key(n) && self.node_types[n] == NodeType::Server)
    }

    /// Whether a report says what is known: the numbers of nodes and links, and each
    /// server with all the trails to it.
    pub open spec fn is_report(self, report: ReportView) -> bool {
        &&& report.known_nodes == self.node_types.len()
        &&& report.known_links == self.topology.len()
        &&& report.servers.len() == ascending(self.servers()).len()
        &&& forall|i: int|
            0 <= i < report.servers.len() ==> {
                &&& (#[trigger] report.servers[i]).0 == ascending(self.servers())[i]
                &&& self.trail_query(report.servers[i].0).are_all_trails(report.servers[i].1)
            }
    }

    /// `post` is this client after a trace was read: it knows what the trace shows,
    /// and has a report of it to hand out.
    pub open spec fn graph_updated(self, post: Self, trace: Seq<(NodeId, NodeType)>) -> bool {
        let known = self.with_trace(trace);
        &&& post.outbox.len() == self.outbox.len() + 1
        &&& post == known.emit(post.outbox.last())
        &&& post.outbox.last() is Report
        &&& known.is_report(post.outbox.last()->Report_0)
    }

    /// The client answers a flood request: it appends itself to the trace, and the
    /// answer goes back the way the request came.
    pub open spec fn flood_answered(
        self,
        flood_id: u64,
        trace: Seq<(NodeId, NodeType)>,
        session_id: u64,
    ) -> Self {
        let path_trace = trace.push((self.id, NodeType::Client));
        let hops = trace_ids(path_trace).reverse();
        self.send(
            PacketView {
                pack_type: BodyView::FloodResponse { flood_id, path_trace },
                routing_header: HeaderView { hop_index: 1, hops },
                session_id,
            },
            hops[1],
        )
    }

    // ---- routes ----

    /// Where a route to a node is looked for that keeps clear of some nodes.
    pub open spec fn route_query(self, target: NodeId, excluded: Set<NodeId>) -> RouteQuery {
        RouteQuery {
            topology: self.topology,
            node_types: self.node_types,
            excluded,
            source: self.id,
            target,
        }
    }

    /// Where the trails to a node are looked for.
    pub open spec fn trail_query(self, target: NodeId) -> TrailQuery {
        TrailQuery { topology: self.topology, node_types: self.node_types, source: self.id, target }
    }

    // ---- sending messages ----

    /// `post` is this client after it was asked to send a message: no node is excluded
    /// any more, and if the target can be reached, the message is to be cut into
    /// fragments for a shortest route, of which the controller is told.
    pub open spec fn message_routed(self, post: Self, target: NodeId, message: TestMessage<C>) -> bool {
        let cleared = ClientView { excluded_nodes: Set::empty(), ..self };
        let query = self.route_query(target, Set::empty());
        if query.has_route() {
            exists|path: Seq<NodeId>| {
                &&& #[trigger] query.is_shortest_route(path)
                &&& post == cleared.notify(EventView::Route(path)).emit(ActionView::Fragment { path, message })
            }
        } else {
            post == cleared
        }
    }

    /// The fragments of a message wait for their confirmation, and go to the next hop
    /// of their route.
    pub open spec fn fragments_sent(
        self,
        path: Seq<NodeId>,
        session_id: u64,
        fragments: Seq<PacketView>,
    ) -> Self {
        let stored = ClientView {
            pending_messages: self.pending_messages.insert(session_id, fragments),
            ..self
        };
        if path.len() > 1 {
            stored.send_all(fragments, path[1])
        } else {
            stored
        }
    }

    // ---- confirmations ----

    /// The fragments of a session that have been confirmed.
    pub open spec fn confirmed(self, session_id: u64) -> Set<u64> {
        if self.acked_fragments.contains_key(session_id) {
            self.acked_fragments[session_id]
        } else {
            Set::empty()
        }
    }

    /// A fragment is confirmed. Its drops are forgotten, and once all the fragments of the
    /// session are confirmed, the session is.
    pub open spec fn acked(self, session_id: u64, fragment_index: u64) -> Self {
        let confirmed = self.confirmed(session_id).insert(fragment_index);
        let nack_counter = self.nack_counter.remove_keys(
            Set::new(|key: (u64, u64, NodeId)| key.0 == fragment_index && key.1 == session_id),
        );
        if self.pending_messages.contains_key(session_id) && all_confirmed(
            confirmed,
            self.pending_messages[session_id].len(),
        ) {
            ClientView {
                nack_counter,
                pending_messages: self.pending_messages.remove(session_id),
                acked_fragments: self.acked_fragments.remove(session_id),
                ..self
            }
        } else {
            ClientView {
                nack_counter,
                acked_fragments: self.acked_fragments.insert(session_id, confirmed),
                ..self
            }
        }
    }

    // ---- fragments that did not arrive ----

    /// A fragment that waits for its confirmation.
    pub open spec fn pending_fragment(self, session_id: u64, fragment_index: u64) -> Option<PacketView> {
        if self.pending_messages.contains_key(session_id) && (fragment_index as usize)
            < self.pending_messages[session_id].len() {
            Some(self.pending_messages[session_id][fragment_index as usize as int])
        } else {
            None
        }
    }

    /// Where a fragment that waits for its confirmation is bound for.
    pub open spec fn pending_target(self, session_id: u64, fragment_index: u64) -> Option<NodeId> {
        match self.pending_fragment(session_id, fragment_index) {
            Some(packet) => packet.routing_header.hop_at(packet.routing_header.hops.len() - 1),
            None => None,
        }
    }

    /// A fragment that waits for its confirmation is sent again by its route.
    pub open spec fn fragment_resent(self, session_id: u64, fragment_index: u64) -> Self {
        match self.pending_fragment(session_id, fragment_index) {
            Some(packet) => match packet.routing_header.hop_at(1) {
                Some(next_hop) => self.send(packet, next_hop),
                None => self,
            },
            None => self,
        }
    }

    /// The fragments of a session have another route.
    pub open spec fn rerouted(self, session_id: u64, path: Seq<NodeId>) -> Self {
        ClientView {
            pending_messages: self.pending_messages.insert(
                session_id,
                self.pending_messages[session_id].map_values(|packet: PacketView| packet.rerouted(path)),
            ),
            ..self
        }
    }

    /// `post` is this client after it sent a fragment by a route that keeps clear of the
    /// excluded nodes. All the fragments of the session take that route from now on. If
    /// there is none, the controller is told.
    pub open spec fn resent_by_new_path(self, post: Self, session_id: u64, fragment_index: u64) -> bool {
        match self.pending_target(session_id, fragment_index) {
            Some(target) => {
                let query = self.route_query(target, self.excluded_nodes);
                if query.has_route() {
                    exists|path: Seq<NodeId>| {
                        &&& #[trigger] query.is_shortest_route(path)
                        &&& post == self.rerouted(session_id, path).fragment_resent(session_id, fragment_index)
                    }
                } else {
                    post == self.error(no_route_text()).error(stuck_text(fragment_index))
                }
            },
            None => post == self,
        }
    }

    /// How often a fragment has been dropped by a node, counting once more.
    pub open spec fn drops(self, key: (u64, u64, NodeId)) -> int {
        if self.nack_counter.contains_key(key) {
            self.nack_counter[key] + 1
        } else {
            1
        }
    }

    /// A node is excluded from new routes because it dropped a fragment too often.
    pub open spec fn dropper_excluded(self, session_id: u64, fragment_index: u64, drone: NodeId) -> Self {
        let key = (fragment_index, session_id, drone);
        let noted = self.debug(dropped_text(self.id, self.drops(key) as u8, drone, fragment_index));
        let excluding = ClientView { excluded_nodes: self.excluded_nodes.insert(drone), ..noted };
        let told = excluding.debug(excluded_text(self.id, excluding.excluded_nodes));
        ClientView { nack_counter: self.nack_counter.remove(key), ..told }
    }

    /// `post` is this client after it was told that `drone` did not pass on a fragment.
    /// A fragment that was dropped is sent again by the same route up to the retry
    /// limit, and then by one that keeps clear of the drone. After any other failure the
    /// network is explored anew and the fragment sent again.
    pub open spec fn nacked(self, post: Self, nack: Nack, session_id: u64, drone: NodeId, fresh_id: u64) -> bool {
        let key = (nack.fragment_index, session_id, drone);
        if nack.nack_type == NackType::Dropped {
            if self.drops(key) > RETRY_LIMIT {
                self.dropper_excluded(session_id, nack.fragment_index, drone).resent_by_new_path(
                    post,
                    session_id,
                    nack.fragment_index,
                )
            } else {
                post == (ClientView {
                    nack_counter: self.nack_counter.insert(key, self.drops(key) as u8),
                    ..self
                }).fragment_resent(session_id, nack.fragment_index)
            }
        } else {
            post == self.discovering(fresh_id).debug(rediscovery_text(self.id)).fragment_resent(
                session_id,
                nack.fragment_index,
            )
        }
    }

    /// Whether a negative confirmation can be dealt with: unless the fragment was
    /// dropped, the identifier of a flood has to be made, and the fragment, where it is
    /// still pending, needs a next hop.
    pub open spec fn accepts_nack(self, nack: Nack, session_id: u64, fresh_id: u64) -> bool {
        nack.nack_type == NackType::Dropped || {
            &&& self.flood_id_fits(fresh_id)
            &&& match self.pending_fragment(session_id, nack.fragment_index) {
                Some(packet) => packet.routing_header.hops.len() > 1,
                None => true,
            }
        }
    }

    // ---- fragments that arrive ----

    /// What has arrived of the message that a fragment belongs to, or the message with
    /// nothing arrived if the fragment is the first.
    pub open spec fn stored(self, session_id: u64, src_id: NodeId, fragment: Fragment) -> PartialView {
        let key = (session_id as usize, src_id);
        if self.message_storage.contains_key(key) {
            self.message_storage[key]
        } else {
            PartialView::fresh(fragment.total_n_fragments)
        }
    }

    /// Whether the bytes of a fragment, and of a message that it is the first of, can
    /// be held in memory.
    pub open spec fn accepts_fragment(self, header: HeaderView, session_id: u64, fragment: Fragment) -> bool {
        match header.source() {
            Some(src_id) => {
                &&& addressable(fragment.fragment_index + 1)
                &&& self.message_storage.contains_key((session_id as usize, src_id)) || addressable(
                    fragment.total_n_fragments as int,
                )
            },
            None => true,
        }
    }

    /// A fragment goes back confirmed, by the reverse of its route.
    pub open spec fn ack_sent(self, header: HeaderView, session_id: u64, fragment_index: u64) -> Self {
        let back = HeaderView { hop_index: 1, hops: header.hops.reverse() };
        match back.hop_at(1) {
            Some(next_hop) => self.send(ack_packet(back, session_id, fragment_index), next_hop),
            None => self,
        }
    }

    /// A fragment was received. Its bytes are kept. If the message has a fragment of
    /// that number, it is confirmed, and once all have arrived, the message is to be
    /// decoded and is kept no longer.
    pub open spec fn fragment_received(self, header: HeaderView, session_id: u64, fragment: Fragment) -> Self {
        match header.source() {
            Some(src_id) => {
                let key = (session_id as usize, src_id);
                let before = self.stored(session_id, src_id, fragment);
                let after = before.with(fragment);
                let noted = self.debug(received_text(self.id, src_id));
                let kept = ClientView {
                    message_storage: self.message_storage.insert(key, after),
                    ..noted
                };
                if !before.expects(fragment.fragment_index) {
                    kept
                } else if after.complete() {
                    ClientView { message_storage: self.message_storage.remove(key), ..noted }.ack_sent(
                        header,
                        session_id,
                        fragment.fragment_index,
                    ).emit(ActionView::Decode { session_id, src_id, data: after.data })
                } else {
                    kept.ack_sent(header, session_id, fragment.fragment_index)
                }
            },
            None => self,
        }
    }

    /// A message was decoded, or could not be.
    pub open spec fn message_processed(self, src_id: NodeId, decoded: Option<TestMessage<C>>) -> Self {
        match decoded {
            Some(message) => self.notify(message_event(self.id, src_id, message)),
            None => self,
        }
    }

    // ---- packets and commands ----

    /// Whether a packet can be dealt with.
    pub open spec fn accepts_packet(self, packet: PacketView, fresh_id: u64) -> bool {
        match packet.pack_type {
            BodyView::MsgFragment(fragment) => self.accepts_fragment(
                packet.routing_header,
                packet.session_id,
                fragment,
            ),
            BodyView::FloodResponse { flood_id, path_trace } => path_trace.len() > 0,
            BodyView::FloodRequest { flood_id, initiator_id, path_trace } => path_trace.len() > 0,
            BodyView::Ack(ack) => true,
            BodyView::Nack(nack) => {
                &&& packet.routing_header.hops.len() > 0
                &&& self.accepts_nack(nack, packet.session_id, fresh_id)
            },
        }
    }

    /// `post` is this client after it dealt with a packet.
    pub open spec fn packet_handled(self, post: Self, packet: PacketView, fresh_id: u64) -> bool {
        match packet.pack_type {
            BodyView::MsgFragment(fragment) => post == self.fragment_received(
                packet.routing_header,
                packet.session_id,
                fragment,
            ),
            BodyView::FloodResponse { flood_id, path_trace } => self.graph_updated(post, path_trace),
            BodyView::FloodRequest { flood_id, initiator_id, path_trace } => post == self.flood_answered(
                flood_id,
                path_trace,
                packet.session_id,
            ),
            BodyView::Ack(ack) => post == self.acked(packet.session_id, ack.fragment_index),
            BodyView::Nack(nack) => self.nacked(
                post,
                nack,
                packet.session_id,
                packet.routing_header.hops[0],
                fresh_id,
            ),
        }
    }

    /// `post` is this client after it was asked to send a request to a server.
    pub open spec fn request_routed(self, post: Self, server: NodeId, request: ClientMessages) -> bool {
        self.message_routed(post, server, TestMessage::WebServerMessages(request))
    }

    /// The client with one neighbour more.
    pub open spec fn with_neighbor(self, n: NodeId) -> Self {
        ClientView { neighbors: self.neighbors.insert(n), ..self }
    }

    /// The client with one neighbour less.
    pub open spec fn without_neighbor(self, n: NodeId) -> Self {
        ClientView { neighbors: self.neighbors.remove(n), ..self }
    }

    /// Whether a command can be carried out.
    pub open spec fn accepts_command(self, command: ClientCommand, fresh_id: u64) -> bool {
        match command {
            ClientCommand::RemoveSender(n) => self.flood_id_fits(fresh_id),
            ClientCommand::AddSender(n) => self.flood_id_fits(fresh_id),
            ClientCommand::RequestNetworkDiscovery => self.flood_id_fits(fresh_id),
            ClientCommand::ControllerShortcut(packet) => self.accepts_packet(packet@, fresh_id),
            _ => true,
        }
    }

    /// `post` is this client after it carried out a command.
    pub open spec fn command_handled(self, post: Self, command: ClientCommand, fresh_id: u64) -> bool {
        match command {
            ClientCommand::RemoveSender(n) => post == self.without_neighbor(n).discovering(fresh_id),
            ClientCommand::AddSender(n) => post == self.with_neighbor(n).discovering(fresh_id),
            ClientCommand::ServerType(n) => self.request_routed(post, n, ClientMessages::ServerType),
            ClientCommand::FilesList(n) => self.request_routed(post, n, ClientMessages::FilesList),
            ClientCommand::File(n, file) => self.request_routed(post, n, ClientMessages::File(file)),
            ClientCommand::Media(n, media) => self.request_routed(post, n, ClientMessages::Media(media)),
            ClientCommand::ClientList(n) => self.request_routed(post, n, ClientMessages::ClientList),
            ClientCommand::RegistrationToChat(n) => self.request_routed(
                post,
                n,
                ClientMessages::RegistrationToChat,
            ),
            ClientCommand::MessageFor(n, target, text) => self.request_routed(
                post,
                n,
                ClientMessages::MessageFor(target, text),
            ),
            ClientCommand::RequestNetworkDiscovery => post == self.discovering(fresh_id),
            ClientCommand::ControllerShortcut(packet) => self.packet_handled(post, packet@, fresh_id),
        }
    }
}

} // verus!
