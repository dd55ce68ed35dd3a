//! The client: what it does with packets and commands.

use crate::assembler::{all_received, assembler, is_addressable, PartialView};
use crate::ids::{ascending, ascending_below, lemma_ascending_members, members, NodeId};
use crate::messages::{
    action_views, event_of, Action, ActionView, ClientCommand, ClientEvent, ClientMessages,
    ClientType, Content, RouteReport, ServerMessages, TestMessage,
};
use crate::packet::{
    copy_ids, copy_packets, packet_views, reversed, trace_ids, BodyView, FloodRequest,
    FloodResponse, Fragment, Nack, NackType, NodeType, Packet, PacketType, PacketView,
    SourceRoutingHeader, FRAGMENT_SIZE,
};
use crate::routing::find_route;
use crate::state::{all_confirmed, joins, learn_types, trace_links, ClientView, LedgerView, RETRY_LIMIT};
use crate::text::{
    dropped_notice, excluded_notice, no_route_error, no_route_text, received_notice,
    rediscovery_notice, stuck_error,
};
use crate::trails::{find_paths_recursive, lemma_full_trail, path_views};
use std::collections::{BTreeMap, BTreeSet};
use vstd::prelude::*;

verus! {

/// A client of the network.
///
/// It takes packets and commands, keeps what it knows of the network and of the
/// messages under way, and leaves in its outbox what is to be done.
pub struct DronegowskiClient<C: Content> {
    /// The client's own identifier.
    pub id: NodeId,
    /// The nodes that packets can be handed to directly.
    pub neighbors: BTreeSet<NodeId>,
    /// What the client is used for.
    pub client_type: ClientType,
    /// Messages of which some fragments have arrived, by session and sender: the bytes
    /// so far, and for each fragment whether it is there.
    pub message_storage: BTreeMap<(usize, NodeId), (Vec<u8>, Vec<bool>)>,
    /// The links that are known.
    pub topology: BTreeSet<(NodeId, NodeId)>,
    /// The nodes that are known, and what they are.
    pub node_types: BTreeMap<NodeId, NodeType>,
    /// What the client keeps to itself.
    pub ledger: Ledger<C>,
}

/// What a client keeps to itself: the messages that it sends and what became of their
/// fragments, and what is left to do.
pub struct Ledger<C: Content> {
    /// The fragments of each session that has not been confirmed as a whole.
    pending_messages: BTreeMap<u64, Vec<Packet>>,
    /// The fragments of each session that have been confirmed.
    acked_fragments: BTreeMap<u64, BTreeSet<u64>>,
    /// How often a fragment of a session was dropped by a node.
    nack_counter: BTreeMap<(u64, u64, NodeId), u8>,
    /// The nodes that new routes keep clear of.
    excluded_nodes: BTreeSet<NodeId>,
    /// What is left to do, in order.
    outbox: Vec<Action<C>>,
}

/// Model of the messages of which some fragments have arrived.
pub open spec fn storage_view(m: Map<(usize, NodeId), (Vec<u8>, Vec<bool>)>) -> Map<(usize, NodeId), PartialView> {
    m.map_values(|v: (Vec<u8>, Vec<bool>)| PartialView { data: v.0@, received: v.1@ })
}

/// Model of the fragments that wait for their confirmation.
spec fn pending_view(m: Map<u64, Vec<Packet>>) -> Map<u64, Seq<PacketView>> {
    m.map_values(|v: Vec<Packet>| packet_views(v@))
}

/// Model of the confirmed fragments.
spec fn acked_view(m: Map<u64, BTreeSet<u64>>) -> Map<u64, Set<u64>> {
    m.map_values(|v: BTreeSet<u64>| v@)
}

impl<C: Content> View for Ledger<C> {
    type V = LedgerView<C>;

    closed spec fn view(&self) -> LedgerView<C> {
        LedgerView {
            pending_messages: pending_view(self.pending_messages@),
            acked_fragments: acked_view(self.acked_fragments@),
            nack_counter: self.nack_counter@,
            excluded_nodes: self.excluded_nodes@,
            outbox: action_views(self.outbox@),
        }
    }
}

impl<C: Content> View for DronegowskiClient<C> {
    type V = ClientView<C>;

    open spec fn view(&self) -> ClientView<C> {
        ClientView {
            id: self.id,
            client_type: self.client_type,
            neighbors: self.neighbors@,
            message_storage: storage_view(self.message_storage@),
            topology: self.topology@,
            node_types: self.node_types@,
            pending_messages: self.ledger@.pending_messages,
            acked_fragments: self.ledger@.acked_fragments,
            nack_counter: self.ledger@.nack_counter,
            excluded_nodes: self.ledger@.excluded_nodes,
            outbox: self.ledger@.outbox,
        }
    }
}

impl<C: Content> DronegowskiClient<C> {
    /// Creates a client that explores the network through its neighbours.
    ///
    /// `fresh_id` is a number that has not been used yet.
    pub fn new(id: NodeId, neighbors: BTreeSet<NodeId>, client_type: ClientType, fresh_id: u64) -> (res: Self)
        requires
            ClientView::<C>::initial(id, neighbors@, client_type).flood_id_fits(fresh_id),
        ensures
            res@ == ClientView::<C>::initial(id, neighbors@, client_type).discovering(fresh_id),
            res@.wf(),
    {
        let mut client = DronegowskiClient {
            id,
            neighbors,
            client_type,
            message_storage: BTreeMap::new(),
            topology: BTreeSet::new(),
            node_types: BTreeMap::new(),
            ledger: Ledger {
                pending_messages: BTreeMap::new(),
                acked_fragments: BTreeMap::new(),
                nack_counter: BTreeMap::new(),
                excluded_nodes: BTreeSet::new(),
                outbox: Vec::new(),
            },
        };
        assert(client@ =~= ClientView::<C>::initial(id, neighbors@, client_type));
        client.server_discovery(fresh_id);
        client
    }

    /// Hands out what is to be done, and leaves nothing behind.
    pub fn take_actions(&mut self) -> (res: Vec<Action<C>>)
        ensures
            action_views(res@) == old(self)@.outbox,
            final(self)@ == (ClientView { outbox: Seq::empty(), ..old(self)@ }),
            old(self)@.wf() ==> final(self)@.wf(),
    {
        let mut res: Vec<Action<C>> = Vec::new();
        res.append(&mut self.ledger.outbox);
        assert(action_views(self.ledger.outbox@) =~= Seq::empty());
        assert(res@ =~= old(self).ledger.outbox@);
        res
    }

    /// Leaves something to do.
    fn emit(&mut self, action: Action<C>)
        ensures
            final(self)@ == old(self)@.emit(action@),
    {
        self.ledger.outbox.push(action);
        assert(self@.outbox =~= old(self)@.outbox.push(action@));
    }

    /// Leaves an event to tell the simulation controller of.
    fn notify(&mut self, event: ClientEvent<C>)
        ensures
            final(self)@ == old(self)@.notify(event@),
    {
        self.emit(Action::Notify(event));
    }

    /// Leaves a packet to send and report, where the recipient is a neighbour.
    fn send_packet_and_notify(&mut self, packet: Packet, recipient_id: NodeId)
        ensures
            final(self)@ == old(self)@.send(packet@, recipient_id),
    {
        if self.neighbors.contains(&recipient_id) {
            self.emit(Action::Send { packet, recipient: recipient_id });
        }
    }

    /// Switches the use of the client between chatting and browsing.
    pub fn switch_client_type(&mut self)
        ensures
            final(self)@ == (ClientView { client_type: old(self)@.client_type.switched(), ..old(self)@ }),
            old(self)@.wf() ==> final(self)@.wf(),
    {
        self.client_type = match self.client_type {
            ClientType::ChatClients => ClientType::WebBrowsers,
            ClientType::WebBrowsers => ClientType::ChatClients,
        };
    }

    /// Forgets what is known of the network, and leaves a flood request to send to
    /// every neighbour.
    pub fn server_discovery(&mut self, fresh_id: u64)
        requires
            old(self)@.flood_id_fits(fresh_id),
        ensures
            final(self)@ == old(self)@.discovering(fresh_id),
            old(self)@.wf() ==> final(self)@.wf(),
    {
        self.topology.clear();
        self.node_types.clear();
        let flood_id: u64 = fresh_id + self.id as u64 * 31;
        let ids: Vec<NodeId> = members(&self.neighbors);
        let ghost before = self@;
        for i in 0..ids.len()
            invariant
                ids@ == ascending(old(self)@.neighbors),
                flood_id == old(self)@.id * 31 + fresh_id,
                before == (ClientView {
                    topology: Set::empty(),
                    node_types: Map::empty(),
                    ..old(self)@
                }),
                self@ == (ClientView {
                    outbox: before.outbox + ids@.take(i as int).map_values(
                        |n: NodeId| ActionView::Send { packet: old(self)@.flood_packet(fresh_id, n), recipient: n },
                    ),
                    ..before
                }),
        {
            let node_id: NodeId = ids[i];
            let path_trace: Vec<(NodeId, NodeType)> = vec![(self.id, NodeType::Client)];
            let hops: Vec<NodeId> = vec![self.id, node_id];
            let packet = Packet {
                pack_type: PacketType::FloodRequest(FloodRequest { flood_id, initiator_id: self.id, path_trace }),
                routing_header: SourceRoutingHeader { hop_index: 0, hops },
                session_id: flood_id,
            };
            proof {
                assert(path_trace@ =~= seq![(self.id, NodeType::Client)]);
                assert(hops@ =~= seq![self.id, node_id]);
                assert(packet@ == old(self)@.flood_packet(fresh_id, node_id));
                lemma_ascending_members(old(self)@.neighbors, 256);
                assert(ids@.contains(node_id));
                assert(ids@.take(i + 1) =~= ids@.take(i as int).push(node_id));
            }
            self.send_packet_and_notify(packet, node_id);
            proof {
                assert(self@ =~= ClientView {
                    outbox: before.outbox + ids@.take(i + 1).map_values(
                        |n: NodeId| ActionView::Send { packet: old(self)@.flood_packet(fresh_id, n), recipient: n },
                    ),
                    ..before
                });
            }
        }
        assert(ids@.take(ids@.len() as int) =~= ids@);
    }

    /// Deals with a fragment of a message: keeps its bytes, confirms it, and once all
    /// the fragments are there, leaves the message to decode. Other packets are
    /// passed over.
    pub fn handle_message_fragment(&mut self, packet: Packet)
        requires
            packet@.pack_type matches BodyView::MsgFragment(f) ==> old(self)@.accepts_fragment(
                packet@.routing_header,
                packet.session_id,
                f,
            ),
        ensures
            match packet@.pack_type {
                BodyView::MsgFragment(f) => final(self)@ == old(self)@.fragment_received(
                    packet@.routing_header,
                    packet.session_id,
                    f,
                ),
                _ => final(self)@ == old(self)@,
            },
            old(self)@.wf() ==> final(self)@.wf(),
    {
        let fragment: Fragment = match packet.pack_type {
            PacketType::MsgFragment(f) => f,
            _ => {
                return;
            },
        };
        let src_id: NodeId = match packet.routing_header.source() {
            Some(id) => id,
            None => {
                return;
            },
        };
        self.notify(ClientEvent::DebugMessage(self.id, received_notice(self.id, src_id)));
        let key: (usize, NodeId) = (packet.session_id as usize, src_id);
        let ghost noted = self@;
        let ghost before = noted.stored(packet.session_id, src_id, fragment);
        let (mut message_data, mut fragments_received) = match self.message_storage.remove(&key) {
            Some(entry) => entry,
            None => (
                Vec::with_capacity(fragment.total_n_fragments as usize * FRAGMENT_SIZE),
                vec![false; fragment.total_n_fragments as usize],
            ),
        };
        proof {
            if !noted.message_storage.contains_key(key) {
                assert(fragments_received@ =~= before.received);
                assert(message_data@ =~= before.data);
            }
            assert(message_data@ == before.data && fragments_received@ == before.received);
        }
        assembler(&mut message_data, &fragment);
        let index: usize = fragment.fragment_index as usize;
        if index >= fragments_received.len() {
            self.message_storage.insert(key, (message_data, fragments_received));
            assert(self@.message_storage =~= noted.message_storage.insert(key, before.with(fragment)));
            return;
        }
        fragments_received[index] = true;
        let ghost after = before.with(fragment);
        assert(fragments_received@ =~= after.received);
        let reversed_hops: Vec<NodeId> = reversed(&packet.routing_header.hops);
        let ack_packet = Packet::new_ack(
            SourceRoutingHeader { hop_index: 1, hops: reversed_hops },
            packet.session_id,
            fragment.fragment_index,
        );
        if all_received(&fragments_received) {
            assert(after.complete());
            assert(self@ =~= (ClientView { message_storage: noted.message_storage.remove(key), ..noted }));
            if ack_packet.routing_header.hops.len() > 1 {
                let next_hop: NodeId = ack_packet.routing_header.hops[1];
                self.send_packet_and_notify(ack_packet, next_hop);
            }
            self.emit(Action::Decode { session_id: packet.session_id, src_id, data: message_data });
        } else {
            self.message_storage.insert(key, (message_data, fragments_received));
            assert(!after.complete());
            assert(self@ =~= (ClientView { message_storage: noted.message_storage.insert(key, after), ..noted }));
            if ack_packet.routing_header.hops.len() > 1 {
                let next_hop: NodeId = ack_packet.routing_header.hops[1];
                self.send_packet_and_notify(ack_packet, next_hop);
            }
        }
    }

    /// Deals with a message that was put together: leaves an event that tells of it,
    /// where it could be decoded.
    pub fn process_reassembled_message(&mut self, src_id: NodeId, decoded: Option<TestMessage<C>>)
        ensures
            final(self)@ == old(self)@.message_processed(src_id, decoded),
            old(self)@.wf() ==> final(self)@.wf(),
    {
        match decoded {
            Some(TestMessage::WebClientMessages(server_message)) => {
                self.handle_server_message(src_id, server_message);
            },
            Some(message) => {
                self.notify(ClientEvent::MessageReceived(message));
            },
            None => {},
        }
    }

    /// Leaves an event that tells of a message from a server.
    pub fn handle_server_message(&mut self, src_id: NodeId, server_message: ServerMessages<C>)
        ensures
            final(self)@ == old(self)@.notify(event_of(old(self)@.id, src_id, server_message)),
            old(self)@.wf() ==> final(self)@.wf(),
    {
        let id: NodeId = self.id;
        let event = match server_message {
            ServerMessages::ServerType(server_type) => ClientEvent::ServerTypeReceived(id, src_id, server_type),
            ServerMessages::ClientList(clients) => ClientEvent::ClientListReceived(id, src_id, clients),
            ServerMessages::FilesList(files) => ClientEvent::FilesListReceived(id, src_id, files),
            ServerMessages::File(file_data) => ClientEvent::FileReceived(id, src_id, file_data),
            ServerMessages::Media(media_data) => ClientEvent::MediaReceived(id, src_id, media_data),
            ServerMessages::MessageFrom(from_id, message) => ClientEvent::MessageFromReceived(
                id,
                src_id,
                from_id,
                message,
            ),
            ServerMessages::RegistrationOk => ClientEvent::RegistrationOk(id, src_id),
            ServerMessages::RegistrationError(_) => ClientEvent::RegistrationError(id, src_id),
            ServerMessages::Error(error) => ClientEvent::Error(id, error),
        };
        self.notify(event);
    }

    /// Adds what a trace shows to what is known of the network, and leaves a report on
    /// the servers and the trails to them.
    pub fn update_graph(&mut self, path_trace: Vec<(NodeId, NodeType)>)
        requires
            path_trace@.len() > 0,
        ensures
            old(self)@.graph_updated(final(self)@, path_trace@),
            old(self)@.wf() ==> final(self)@.wf(),
    {
        learn_trace(&mut self.topology, &mut self.node_types, &path_trace);
        assert(self@ =~= old(self)@.with_trace(path_trace@));
        let report = self.route_report();
        self.emit(Action::Report(report));
        assert(self@ =~= old(self)@.with_trace(path_trace@).emit(self@.outbox.last()));
    }

    /// The servers that are known, and all the trails to each.
    pub fn route_report(&self) -> (res: RouteReport)
        ensures
            self@.is_report(res@),
    {
        let mut servers: Vec<(NodeId, Vec<Vec<NodeId>>)> = Vec::new();
        let mut n: u16 = 0;
        while n < 256
            invariant
                n <= 256,
                servers@.len() == ascending_below(self@.servers(), n as nat).len(),
                forall|i: int|
                    0 <= i < servers@.len() ==> {
                        &&& (#[trigger] servers@[i]).0 == ascending_below(self@.servers(), n as nat)[i]
                        &&& self@.trail_query(servers@[i].0).are_all_trails(path_views(servers@[i].1@))
                    },
            decreases 256 - n,
        {
            let id: NodeId = n as NodeId;
            let is_server: bool = match self.node_types.get(&id) {
                Some(node_type) => *node_type == NodeType::Server,
                None => false,
            };
            assert(is_server == self@.servers().contains(id));
            if is_server {
                servers.push((id, self.compute_all_routes(&id)));
            }
            n = n + 1;
        }
        let res = RouteReport { known_nodes: self.node_types.len(), known_links: self.topology.len(), servers };
        proof {
            assert forall|i: int| 0 <= i < res@.servers.len() implies {
                &&& (#[trigger] res@.servers[i]).0 == ascending(self@.servers())[i]
                &&& self@.trail_query(res@.servers[i].0).are_all_trails(res@.servers[i].1)
            } by {
                assert(servers@[i].0 == ascending_below(self@.servers(), 256)[i]);
            }
        }
        res
    }

    /// All the trails to a node.
    pub fn compute_all_routes(&self, target_server: &NodeId) -> (res: Vec<Vec<NodeId>>)
        ensures
            self@.trail_query(*target_server).are_all_trails(path_views(res@)),
    {
        let mut all_paths: Vec<Vec<NodeId>> = Vec::new();
        let mut current_path: Vec<NodeId> = vec![self.id];
        let ghost start = seq![self.id];
        assert(current_path@ =~= start);
        let ghost before = path_views(all_paths@);
        find_paths_recursive(&self.topology, &self.node_types, *target_server, &mut current_path, &mut all_paths);
        proof {
            let q = self@.trail_query(*target_server);
            let paths = path_views(all_paths@);
            assert(before.len() == 0);
            assert(paths.skip(0) =~= paths);
            assert forall|p: Seq<NodeId>| #[trigger] paths.contains(p) <==> q.is_full_trail(p) by {
                assert(paths.skip(0).contains(p) <==> q.goes_on(start, p));
                lemma_full_trail(q, p);
            }
        }
        all_paths
    }

    /// A shortest route to a node, where there is one.
    pub fn compute_route(&self, target_server: &NodeId) -> (res: Option<Vec<NodeId>>)
        ensures
            match res {
                Some(path) => self@.route_query(*target_server, Set::empty()).is_shortest_route(path@),
                None => !self@.route_query(*target_server, Set::empty()).has_route(),
            },
    {
        let excluded: BTreeSet<NodeId> = BTreeSet::new();
        find_route(&self.topology, &self.node_types, &excluded, self.id, *target_server)
    }

    /// A shortest route to a node that keeps clear of the excluded nodes, where there
    /// is one. Where there is none, leaves an event that tells of it.
    pub fn compute_route_excluding(&mut self, target_server: &NodeId) -> (res: Option<Vec<NodeId>>)
        ensures
            ({
                let query = old(self)@.route_query(*target_server, old(self)@.excluded_nodes);
                match res {
                    Some(path) => query.is_shortest_route(path@) && final(self)@ == old(self)@,
                    None => !query.has_route() && final(self)@ == old(self)@.error(no_route_text()),
                }
            }),
            old(self)@.wf() ==> final(self)@.wf(),
    {
        let res = find_route(&self.topology, &self.node_types, &self.ledger.excluded_nodes, self.id, *target_server);
        if res.is_none() {
            self.notify(ClientEvent::Error(self.id, no_route_error()));
        }
        res
    }

    /// Answers a flood request. Other packets are passed over.
    pub fn handle_flood_request(&mut self, packet: Packet)
        requires
            packet@.pack_type matches BodyView::FloodRequest { flood_id, initiator_id, path_trace }
                ==> path_trace.len() > 0,
        ensures
            match packet@.pack_type {
                BodyView::FloodRequest { flood_id, initiator_id, path_trace } => final(self)@ == old(
                    self,
                )@.flood_answered(flood_id, path_trace, packet.session_id),
                _ => final(self)@ == old(self)@,
            },
            old(self)@.wf() ==> final(self)@.wf(),
    {
        let flood_request: FloodRequest = match packet.pack_type {
            PacketType::FloodRequest(req) => req,
            _ => {
                return;
            },
        };
        let mut path_trace: Vec<(NodeId, NodeType)> = flood_request.path_trace;
        path_trace.push((self.id, NodeType::Client));
        let mut hops: Vec<NodeId> = Vec::new();
        let mut i: usize = path_trace.len();
        while i > 0
            invariant
                i <= path_trace@.len(),
                hops@ == trace_ids(path_trace@).skip(i as int).reverse(),
            decreases i,
        {
            i = i - 1;
            hops.push(path_trace[i].0);
            assert(hops@ =~= trace_ids(path_trace@).skip(i as int).reverse());
        }
        assert(trace_ids(path_trace@).skip(0) =~= trace_ids(path_trace@));
        let next_node: NodeId = hops[1];
        let response = Packet {
            pack_type: PacketType::FloodResponse(FloodResponse { flood_id: flood_request.flood_id, path_trace }),
            routing_header: SourceRoutingHeader { hop_index: 1, hops },
            session_id: packet.session_id,
        };
        self.send_packet_and_notify(response, next_node);
    }

    /// Deals with the confirmation of a fragment.
    pub fn handle_ack(&mut self, fragment_index: u64, session_id: u64)
        ensures
            final(self)@ == old(self)@.acked(session_id, fragment_index),
            old(self)@.wf() ==> final(self)@.wf(),
    {
        self.ledger.nack_counter = without_drops(&self.ledger.nack_counter, fragment_index, session_id);
        let mut acked: BTreeSet<u64> = match self.ledger.acked_fragments.remove(&session_id) {
            Some(acked) => acked,
            None => BTreeSet::new(),
        };
        acked.insert(fragment_index);
        assert(acked@ == old(self)@.confirmed(session_id).insert(fragment_index));
        let complete: bool = match self.ledger.pending_messages.get(&session_id) {
            Some(fragments) => holds_all_below(&acked, fragments.len()),
            None => false,
        };
        if complete {
            self.ledger.pending_messages.remove(&session_id);
        } else {
            self.ledger.acked_fragments.insert(session_id, acked);
        }
        assert(self@ =~= old(self)@.acked(session_id, fragment_index));
    }

    /// Deals with a fragment that `id_drop_drone` did not pass on.
    pub fn handle_nack(&mut self, nack: Nack, session_id: u64, id_drop_drone: NodeId, fresh_id: u64)
        requires
            old(self)@.wf(),
            old(self)@.accepts_nack(nack, session_id, fresh_id),
        ensures
            old(self)@.nacked(final(self)@, nack, session_id, id_drop_drone, fresh_id),
            final(self)@.wf(),
    {
        match nack.nack_type {
            NackType::Dropped => {
                let key: (u64, u64, NodeId) = (nack.fragment_index, session_id, id_drop_drone);
                let counter: u8 = match self.ledger.nack_counter.get(&key) {
                    Some(counter) => *counter + 1,
                    None => 1,
                };
                if counter > RETRY_LIMIT {
                    self.notify(
                        ClientEvent::DebugMessage(
                            self.id,
                            dropped_notice(self.id, counter, id_drop_drone, nack.fragment_index),
                        ),
                    );
                    self.ledger.excluded_nodes.insert(id_drop_drone);
                    self.notify(
                        ClientEvent::DebugMessage(self.id, excluded_notice(self.id, &self.ledger.excluded_nodes)),
                    );
                    self.ledger.nack_counter.remove(&key);
                    assert(self@ =~= old(self)@.dropper_excluded(session_id, nack.fragment_index, id_drop_drone));
                    self.resend_with_new_path(session_id, nack.fragment_index);
                } else {
                    self.ledger.nack_counter.insert(key, counter);
                    assert(self@ =~= ClientView {
                        nack_counter: old(self)@.nack_counter.insert(key, counter),
                        ..old(self)@
                    });
                    self.resend_fragment(session_id, nack.fragment_index);
                }
            },
            _ => {
                self.server_discovery(fresh_id);
                self.notify(ClientEvent::DebugMessage(self.id, rediscovery_notice(self.id)));
                self.resend_fragment(session_id, nack.fragment_index);
            },
        }
    }

    /// Sends a fragment that waits for its confirmation again, by its route.
    fn resend_fragment(&mut self, session_id: u64, fragment_index: u64)
        ensures
            final(self)@ == old(self)@.fragment_resent(session_id, fragment_index),
    {
        let packet: Packet = match self.ledger.pending_messages.get(&session_id) {
            Some(fragments) => {
                let index: usize = fragment_index as usize;
                if index < fragments.len() {
                    fragments[index].clone()
                } else {
                    return;
                }
            },
            None => {
                return;
            },
        };
        assert(Some(packet@) == self@.pending_fragment(session_id, fragment_index));
        if packet.routing_header.hops.len() > 1 {
            let next_hop: NodeId = packet.routing_header.hops[1];
            self.send_packet_and_notify(packet, next_hop);
        }
    }

    /// Sends a fragment by a route that keeps clear of the excluded nodes, and sets the
    /// whole session on that route.
    pub fn resend_with_new_path(&mut self, session_id: u64, fragment_index: u64)
        ensures
            old(self)@.resent_by_new_path(final(self)@, session_id, fragment_index),
            old(self)@.wf() ==> final(self)@.wf(),
    {
        let target: NodeId = match self.ledger.pending_messages.get(&session_id) {
            Some(fragments) => {
                let index: usize = fragment_index as usize;
                if index < fragments.len() && fragments[index].routing_header.hops.len() > 0 {
                    let hops = &fragments[index].routing_header.hops;
                    hops[hops.len() - 1]
                } else {
                    return;
                }
            },
            None => {
                return;
            },
        };
        assert(self@.pending_target(session_id, fragment_index) == Some(target));
        match self.compute_route_excluding(&target) {
            Some(new_path) => {
                if let Some(fragments) = self.ledger.pending_messages.remove(&session_id) {
                    let moved: Vec<Packet> = reroute(fragments, &new_path);
                    self.ledger.pending_messages.insert(session_id, moved);
                }
                assert(self@ =~= old(self)@.rerouted(session_id, new_path@));
                self.resend_fragment(session_id, fragment_index);
            },
            None => {
                self.notify(ClientEvent::Error(self.id, stuck_error(fragment_index)));
            },
        }
    }

    /// Leaves a message to be cut into fragments for a shortest route to a node, where
    /// there is one.
    pub fn send_message_to_node(&mut self, target_id: &NodeId, message: TestMessage<C>)
        ensures
            old(self)@.message_routed(final(self)@, *target_id, message),
            old(self)@.wf() ==> final(self)@.wf(),
    {
        self.ledger.excluded_nodes.clear();
        assert(self@ =~= ClientView { excluded_nodes: Set::empty(), ..old(self)@ });
        if let Some(path) = self.compute_route(target_id) {
            let announced: Vec<NodeId> = copy_ids(&path);
            self.notify(ClientEvent::Route(announced));
            self.emit(Action::Fragment { path, message });
            assert(old(self)@.route_query(*target_id, Set::empty()).is_shortest_route(path@));
        }
    }

    /// Takes the fragments of a message that is on its way along `path`: keeps them until
    /// they are confirmed, and sends them to the next hop.
    pub fn send_fragments(&mut self, path: Vec<NodeId>, session_id: u64, fragments: Vec<Packet>)
        ensures
            final(self)@ == old(self)@.fragments_sent(path@, session_id, packet_views(fragments@)),
            old(self)@.wf() ==> final(self)@.wf(),
    {
        let copies: Vec<Packet> = copy_packets(&fragments);
        self.ledger.pending_messages.insert(session_id, copies);
        let ghost stored = self@;
        assert(stored =~= ClientView {
            pending_messages: old(self)@.pending_messages.insert(session_id, packet_views(fragments@)),
            ..old(self)@
        });
        if path.len() > 1 {
            let next_hop: NodeId = path[1];
            if self.neighbors.contains(&next_hop) {
                for i in 0..fragments.len()
                    invariant
                        stored.neighbors.contains(next_hop),
                        self@ == stored.send_all(packet_views(fragments@.take(i as int)), next_hop),
                {
                    self.send_packet_and_notify(fragments[i].clone(), next_hop);
                    assert(fragments@.take(i + 1) =~= fragments@.take(i as int).push(fragments@[i as int]));
                    assert(self@ =~= stored.send_all(packet_views(fragments@.take(i + 1)), next_hop));
                }
                assert(fragments@.take(fragments@.len() as int) =~= fragments@);
            }
        }
    }

    /// Whether [`handle_packet`](Self::handle_packet) can deal with a packet.
    pub fn accepts_packet(&self, packet: &Packet, fresh_id: u64) -> (res: bool)
        ensures
            res == self@.accepts_packet(packet@, fresh_id),
    {
        match &packet.pack_type {
            PacketType::MsgFragment(fragment) => match packet.routing_header.source() {
                Some(src_id) => {
                    let known: bool = self.message_storage.contains_key(&(packet.session_id as usize, src_id));
                    fragment.fragment_index < u64::MAX && is_addressable(fragment.fragment_index + 1) && (known
                        || is_addressable(fragment.total_n_fragments))
                },
                None => true,
            },
            PacketType::FloodResponse(response) => response.path_trace.len() > 0,
            PacketType::FloodRequest(request) => request.path_trace.len() > 0,
            PacketType::Ack(_) => true,
            PacketType::Nack(nack) => packet.routing_header.hops.len() > 0 && self.accepts_nack(
                nack,
                packet.session_id,
                fresh_id,
            ),
        }
    }

    /// Whether [`handle_nack`](Self::handle_nack) can deal with a negative confirmation.
    pub fn accepts_nack(&self, nack: &Nack, session_id: u64, fresh_id: u64) -> (res: bool)
        ensures
            res == self@.accepts_nack(*nack, session_id, fresh_id),
    {
        match nack.nack_type {
            NackType::Dropped => true,
            _ => {
                let index: usize = nack.fragment_index as usize;
                let routed: bool = match self.ledger.pending_messages.get(&session_id) {
                    Some(fragments) => index >= fragments.len() || fragments[index].routing_header.hops.len() > 1,
                    None => true,
                };
                routed && self.flood_id_fits(fresh_id)
            },
        }
    }

    /// Whether the identifier of a flood can be made from a fresh number.
    pub fn flood_id_fits(&self, fresh_id: u64) -> (res: bool)
        ensures
            res == self@.flood_id_fits(fresh_id),
    {
        fresh_id <= u64::MAX - self.id as u64 * 31
    }

    /// Whether [`handle_client_command`](Self::handle_client_command) can carry out a
    /// command.
    pub fn accepts_command(&self, command: &ClientCommand, fresh_id: u64) -> (res: bool)
        ensures
            res == self@.accepts_command(*command, fresh_id),
    {
        match command {
            ClientCommand::RemoveSender(_) => self.flood_id_fits(fresh_id),
            ClientCommand::AddSender(_) => self.flood_id_fits(fresh_id),
            ClientCommand::RequestNetworkDiscovery => self.flood_id_fits(fresh_id),
            ClientCommand::ControllerShortcut(packet) => self.accepts_packet(packet, fresh_id),
            _ => true,
        }
    }

    /// Deals with a packet.
    ///
    /// `fresh_id` is a number that has not been used yet.
    pub fn handle_packet(&mut self, packet: Packet, fresh_id: u64)
        requires
            old(self)@.wf(),
            old(self)@.accepts_packet(packet@, fresh_id),
        ensures
            old(self)@.packet_handled(final(self)@, packet@, fresh_id),
            final(self)@.wf(),
    {
        match packet.pack_type {
            PacketType::MsgFragment(_) => {
                self.handle_message_fragment(packet);
            },
            PacketType::FloodResponse(flood_response) => {
                self.update_graph(flood_response.path_trace);
            },
            PacketType::FloodRequest(_) => {
                self.handle_flood_request(packet);
            },
            PacketType::Ack(ack) => {
                self.handle_ack(ack.fragment_index, packet.session_id);
            },
            PacketType::Nack(nack) => {
                let drop_drone: NodeId = packet.routing_header.hops[0];
                self.handle_nack(nack, packet.session_id, drop_drone, fresh_id);
            },
        }
    }

    /// Carries out a command of the simulation controller.
    ///
    /// `fresh_id` is a number that has not been used yet.
    pub fn handle_client_command(&mut self, command: ClientCommand, fresh_id: u64)
        requires
            old(self)@.wf(),
            old(self)@.accepts_command(command, fresh_id),
        ensures
            old(self)@.command_handled(final(self)@, command, fresh_id),
            final(self)@.wf(),
    {
        match command {
            ClientCommand::RemoveSender(node_id) => {
                self.remove_neighbor(&node_id, fresh_id);
            },
            ClientCommand::AddSender(node_id) => {
                self.add_neighbor(node_id, fresh_id);
            },
            ClientCommand::ServerType(node_id) => {
                self.request_server_type(&node_id);
            },
            ClientCommand::FilesList(node_id) => {
                self.request_file_list(&node_id);
            },
            ClientCommand::File(node_id, file_id) => {
                self.request_file(&node_id, file_id);
            },
            ClientCommand::Media(node_id, media_id) => {
                self.request_media(&node_id, media_id);
            },
            ClientCommand::ClientList(node_id) => {
                self.request_client_list(&node_id);
            },
            ClientCommand::RegistrationToChat(node_id) => {
                self.register_with_server(&node_id);
            },
            ClientCommand::MessageFor(node_id, client_id, message) => {
                self.send_message(&node_id, client_id, message);
            },
            ClientCommand::RequestNetworkDiscovery => {
                self.server_discovery(fresh_id);
            },
            ClientCommand::ControllerShortcut(packet) => {
                self.handle_packet(packet, fresh_id);
            },
        }
    }

    /// Adds a neighbour, and explores the network anew.
    pub fn add_neighbor(&mut self, node_id: NodeId, fresh_id: u64)
        requires
            old(self)@.flood_id_fits(fresh_id),
        ensures
            final(self)@ == old(self)@.with_neighbor(node_id).discovering(fresh_id),
            old(self)@.wf() ==> final(self)@.wf(),
    {
        self.neighbors.insert(node_id);
        self.server_discovery(fresh_id);
    }

    /// Removes a neighbour, and explores the network anew.
    pub fn remove_neighbor(&mut self, node_id: &NodeId, fresh_id: u64)
        requires
            old(self)@.flood_id_fits(fresh_id),
        ensures
            final(self)@ == old(self)@.without_neighbor(*node_id).discovering(fresh_id),
            old(self)@.wf() ==> final(self)@.wf(),
    {
        self.neighbors.remove(node_id);
        self.server_discovery(fresh_id);
    }

    /// Sends a request to a server.
    pub fn send_client_message_to_server(&mut self, server_id: &NodeId, client_message: ClientMessages)
        ensures
            old(self)@.request_routed(final(self)@, *server_id, client_message),
            old(self)@.wf() ==> final(self)@.wf(),
    {
        self.send_message_to_node(server_id, TestMessage::WebServerMessages(client_message));
    }

    /// Asks a chat server for registration.
    pub fn register_with_server(&mut self, server_id: &NodeId)
        ensures
            old(self)@.request_routed(final(self)@, *server_id, ClientMessages::RegistrationToChat),
            old(self)@.wf() ==> final(self)@.wf(),
    {
        self.send_client_message_to_server(server_id, ClientMessages::RegistrationToChat);
    }

    /// Asks a server which clients are connected to it.
    pub fn request_client_list(&mut self, server_id: &NodeId)
        ensures
            old(self)@.request_routed(final(self)@, *server_id, ClientMessages::ClientList),
            old(self)@.wf() ==> final(self)@.wf(),
    {
        self.send_client_message_to_server(server_id, ClientMessages::ClientList);
    }

    /// Sends a message to another client by way of a server.
    pub fn send_message(&mut self, server_id: &NodeId, target_id: NodeId, message_to_client: String)
        ensures
            old(self)@.request_routed(
                final(self)@,
                *server_id,
                ClientMessages::MessageFor(target_id, message_to_client),
            ),
            old(self)@.wf() ==> final(self)@.wf(),
    {
        self.send_client_message_to_server(server_id, ClientMessages::MessageFor(target_id, message_to_client));
    }

    /// Asks a server which files it offers.
    pub fn request_file_list(&mut self, server_id: &NodeId)
        ensures
            old(self)@.request_routed(final(self)@, *server_id, ClientMessages::FilesList),
            old(self)@.wf() ==> final(self)@.wf(),
    {
        self.send_client_message_to_server(server_id, ClientMessages::FilesList);
    }

    /// Asks a server for a file.
    pub fn request_file(&mut self, server_id: &NodeId, file_id: u64)
        ensures
            old(self)@.request_routed(final(self)@, *server_id, ClientMessages::File(file_id)),
            old(self)@.wf() ==> final(self)@.wf(),
    {
        self.send_client_message_to_server(server_id, ClientMessages::File(file_id));
    }

    /// Asks a server for media.
    pub fn request_media(&mut self, server_id: &NodeId, file_id: u64)
        ensures
            old(self)@.request_routed(final(self)@, *server_id, ClientMessages::Media(file_id)),
            old(self)@.wf() ==> final(self)@.wf(),
    {
        self.send_client_message_to_server(server_id, ClientMessages::Media(file_id));
    }

    /// Asks a server what it is.
    pub fn request_server_type(&mut self, server_id: &NodeId)
        ensures
            old(self)@.request_routed(final(self)@, *server_id, ClientMessages::ServerType),
            old(self)@.wf() ==> final(self)@.wf(),
    {
        self.send_client_message_to_server(server_id, ClientMessages::ServerType);
    }
}

/// The fragments of a session on another route.
fn reroute(fragments: Vec<Packet>, path: &Vec<NodeId>) -> (res: Vec<Packet>)
    ensures
        packet_views(res@) == packet_views(fragments@).map_values(|packet: PacketView| packet.rerouted(path@)),
{
    let mut res: Vec<Packet> = Vec::new();
    for i in 0..fragments.len()
        invariant
            res@.len() == i,
            forall|j: int| 0 <= j < i ==> (#[trigger] res@[j])@ == fragments@[j]@.rerouted(path@),
    {
        let mut packet = fragments[i].clone();
        packet.routing_header = SourceRoutingHeader { hop_index: 1, hops: copy_ids(path) };
        res.push(packet);
    }
    assert(packet_views(res@) =~= packet_views(fragments@).map_values(|packet: PacketView| packet.rerouted(path@)));
    res
}

/// Whether the confirmed fragments are all those of a session of `total` fragments.
fn holds_all_below(confirmed: &BTreeSet<u64>, total: usize) -> (res: bool)
    ensures
        res == all_confirmed(confirmed@, total as nat),
{
    for i in 0..total
        invariant
            forall|j: u64| j < i ==> #[trigger] confirmed@.contains(j),
    {
        if !confirmed.contains(&(i as u64)) {
            return false;
        }
    }
    true
}

/// The drop counts without those of one fragment.
fn without_drops(
    counts: &BTreeMap<(u64, u64, NodeId), u8>,
    fragment_index: u64,
    session_id: u64,
) -> (res: BTreeMap<(u64, u64, NodeId), u8>)
    ensures
        res@ == counts@.remove_keys(
            Set::new(|key: (u64, u64, NodeId)| key.0 == fragment_index && key.1 == session_id),
        ),
{
    let mut res: BTreeMap<(u64, u64, NodeId), u8> = BTreeMap::new();
    let ghost dropped = Set::new(|key: (u64, u64, NodeId)| key.0 == fragment_index && key.1 == session_id);
    for entry in it: counts.iter()
        invariant
            dropped == Set::new(|key: (u64, u64, NodeId)| key.0 == fragment_index && key.1 == session_id),
            forall|j: int|
                0 <= j < it.seq().len() ==> {
                    &&& counts@.contains_key(*(#[trigger] it.seq()[j]).0)
                    &&& counts@[*it.seq()[j].0] == *it.seq()[j].1
                },
            forall|key: (u64, u64, NodeId)| #[trigger]
                counts@.contains_key(key) ==> it.seq().contains((&key, &counts@[key])),
            forall|key: (u64, u64, NodeId)| #[trigger]
                res@.contains_key(key) ==> {
                    &&& counts@.contains_key(key)
                    &&& res@[key] == counts@[key]
                    &&& !dropped.contains(key)
                },
            forall|j: int|
                0 <= j < it.index() && !dropped.contains(*(#[trigger] it.seq()[j]).0)
                    ==> res@.contains_key(*it.seq()[j].0),
    {
        let (key, count) = entry;
        if !(key.0 == fragment_index && key.1 == session_id) {
            res.insert(*key, *count);
        }
    }
    assert(res@ =~= counts@.remove_keys(dropped));
    res
}

/// One more node of a trace adds the link to it.
proof fn lemma_longer_trace(trace: Seq<(NodeId, NodeType)>, i: int, link: (NodeId, NodeId))
    requires
        0 <= i < trace.len() - 1,
    ensures
        trace_links(trace.take(i + 2), link) <==> trace_links(trace.take(i + 1), link) || joins(trace, i, link),
{
    let short = trace.take(i + 1);
    let long = trace.take(i + 2);
    assert forall|j: int| 0 <= j < i implies (#[trigger] joins(short, j, link) <==> joins(long, j, link)) by {}
    assert(joins(long, i, link) <==> joins(trace, i, link));
    if trace_links(short, link) {
        let j = choose|j: int| 0 <= j < short.len() - 1 && #[trigger] joins(short, j, link);
        assert(joins(long, j, link));
    }
    if trace_links(long, link) {
        let j = choose|j: int| 0 <= j < long.len() - 1 && #[trigger] joins(long, j, link);
        if j < i {
            assert(joins(short, j, link));
        }
    }
}

/// Adds the links and the types of nodes that a trace shows.
fn learn_trace(
    topology: &mut BTreeSet<(NodeId, NodeId)>,
    node_types: &mut BTreeMap<NodeId, NodeType>,
    trace: &Vec<(NodeId, NodeType)>,
)
    requires
        trace@.len() > 0,
    ensures
        final(topology)@ == old(topology)@.union(
            Set::new(|link: (NodeId, NodeId)| trace_links(trace@, link)),
        ),
        final(node_types)@ == learn_types(old(node_types)@, trace@),
{
    for i in 0..trace.len() - 1
        invariant
            trace@.len() > 0,
            forall|link: (NodeId, NodeId)| #[trigger]
                topology@.contains(link) <==> old(topology)@.contains(link) || trace_links(trace@.take(i + 1), link),
    {
        let a: NodeId = trace[i].0;
        let b: NodeId = trace[i + 1].0;
        let ghost before = topology@;
        topology.insert((a, b));
        topology.insert((b, a));
        proof {
            assert forall|link: (NodeId, NodeId)| #[trigger] topology@.contains(link) <==> old(topology)@.contains(link)
                || trace_links(trace@.take(i + 2), link) by {
                assert(before.contains(link) <==> old(topology)@.contains(link) || trace_links(trace@.take(i + 1), link));
                lemma_longer_trace(trace@, i as int, link);
            }
        }
    }
    assert(trace@.take(trace@.len() as int) =~= trace@);
    assert(topology@ =~= old(topology)@.union(Set::new(|link: (NodeId, NodeId)| trace_links(trace@, link))));
    for i in 0..trace.len()
        invariant
            node_types@ == learn_types(old(node_types)@, trace@.take(i as int)),
    {
        node_types.insert(trace[i].0, trace[i].1);
        assert(trace@.take(i + 1).drop_last() =~= trace@.take(i as int));
    }
}

} // verus!
