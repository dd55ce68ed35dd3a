//! What becomes of a client with each thing that it does, told by the fields of its model
//! alone.

use crate::assembler::{place, PartialView};
use crate::client::DronegowskiClient;
use crate::ids::{ascending, ascending_below, lemma_ascending_members, NodeId};
use crate::laws::law_every_neighbor_is_flooded_once;
use crate::messages::{
    action_views, event_of, Action, ActionView, ClientCommand, ClientEvent, ClientMessages,
    ClientType, Content, EventView, ReportView, ServerMessages, TestMessage,
};
use crate::packet::{
    ack_packet, packet_views, Ack, BodyView, Fragment, HeaderView, Nack, NackType, NodeType,
    Packet, PacketType, PacketView,
};
use crate::routing::RouteQuery;
use crate::state::{joins, learn_types, trace_links, ClientView};
use crate::text::{
    decimal, dropped_text, excluded_text, listing, no_route_text, received_text, rediscovery_text,
    stuck_text,
};
use crate::trails::{path_views, TrailQuery};
use vstd::prelude::*;

verus! {

// ---- sending a message ----

/// The fragments of a message are kept as they are until they are confirmed. Where the
/// second node of the path is a neighbour, each of them is sent to it, in order and once;
/// else none is sent. Nothing else changes.
pub proof fn law_every_fragment_is_sent<C: Content>(
    client: ClientView<C>,
    path: Seq<NodeId>,
    session_id: u64,
    fragments: Seq<PacketView>,
)
    ensures
        ({
            let post = client.fragments_sent(path, session_id, fragments);
            let n = client.outbox.len() as int;
            &&& post == (ClientView {
                pending_messages: client.pending_messages.insert(session_id, fragments),
                outbox: post.outbox,
                ..client
            })
            &&& path.len() > 1 && client.neighbors.contains(path[1]) ==> {
                &&& post.outbox.len() == n + fragments.len()
                &&& forall|i: int| 0 <= i < n ==> #[trigger] post.outbox[i] == client.outbox[i]
                &&& forall|i: int|
                    0 <= i < fragments.len() ==> post.outbox[n + i] == (ActionView::<C>::Send {
                        packet: #[trigger] fragments[i],
                        recipient: path[1],
                    })
            }
            &&& path.len() <= 1 || !client.neighbors.contains(path[1]) ==> post.outbox == client.outbox
        }),
{
}

// ---- receiving a message ----

/// Whether the message that a fragment belongs to has a fragment of that number: as many as
/// were announced when its first fragment came.
pub open spec fn is_expected<C: Content>(client: ClientView<C>, key: (usize, NodeId), fragment: Fragment) -> bool {
    if client.message_storage.contains_key(key) {
        fragment.fragment_index < client.message_storage[key].received.len()
    } else {
        fragment.fragment_index < fragment.total_n_fragments
    }
}

/// Whether a fragment is the only one of its message that has not come yet, or comes again
/// where none is missing.
pub open spec fn is_last_missing<C: Content>(client: ClientView<C>, key: (usize, NodeId), fragment: Fragment) -> bool {
    &&& is_expected(client, key, fragment)
    &&& if client.message_storage.contains_key(key) {
        forall|i: int|
            0 <= i < client.message_storage[key].received.len() && i != fragment.fragment_index
                ==> client.message_storage[key].received[i]
    } else {
        fragment.total_n_fragments == 1
    }
}

/// The bytes that a client has of a message.
pub open spec fn bytes_at<C: Content>(client: ClientView<C>, key: (usize, NodeId)) -> Seq<u8> {
    if client.message_storage.contains_key(key) {
        client.message_storage[key].data
    } else {
        Seq::empty()
    }
}

/// Whether `after` holds the 128 bytes of a fragment at the place of the fragment, and
/// elsewhere what `before` holds, with zeros where that ends too early.
pub open spec fn holds_fragment(before: Seq<u8>, after: Seq<u8>, fragment: Fragment) -> bool {
    let start = fragment.fragment_index * 128;
    &&& after.len() == if before.len() < start + 128 {
        start + 128
    } else {
        before.len() as int
    }
    &&& forall|k: int| start <= k < start + 128 ==> #[trigger] after[k] == fragment.data@[k - start]
    &&& forall|k: int|
        0 <= k < after.len() && !(start <= k < start + 128) ==> #[trigger] after[k] == if k < before.len() {
            before[k]
        } else {
            0
        }
}

/// A buffer to which a fragment is added holds it at its place, and keeps the rest.
pub proof fn law_fragment_is_put_in_place(buffer: Seq<u8>, fragment: Fragment)
    ensures
        holds_fragment(
            buffer,
            place(buffer, fragment.fragment_index as int, fragment.data@),
            fragment,
        ),
{
}

/// A fragment that comes in is stored with its message: its bytes at their place, and a
/// mark at its number. Only when it is the last one missing is the message stored no
/// longer. What is stored of other messages stays, and so does everything else but what is
/// left to do.
pub proof fn law_fragment_is_kept<C: Content>(
    client: ClientView<C>,
    header: HeaderView,
    session_id: u64,
    fragment: Fragment,
)
    requires
        header.hops.len() > 0,
    ensures
        ({
            let key = (session_id as usize, header.hops[0]);
            let post = client.fragment_received(header, session_id, fragment);
            let known = client.message_storage.contains_key(key);
            &&& post == (ClientView { message_storage: post.message_storage, outbox: post.outbox, ..client })
            &&& post.message_storage.remove(key) == client.message_storage.remove(key)
            &&& post.message_storage.contains_key(key) <==> !is_last_missing(client, key, fragment)
            &&& !is_last_missing(client, key, fragment) ==> {
                let received = post.message_storage[key].received;
                &&& holds_fragment(bytes_at(client, key), post.message_storage[key].data, fragment)
                &&& received.len() == if known {
                    client.message_storage[key].received.len()
                } else {
                    fragment.total_n_fragments as nat
                }
                &&& forall|i: int|
                    0 <= i < received.len() ==> (#[trigger] received[i] <==> i == fragment.fragment_index || (known
                        && client.message_storage[key].received[i]))
            }
        }),
{
    let key = (session_id as usize, header.hops[0]);
    let post = client.fragment_received(header, session_id, fragment);
    let before = client.stored(session_id, header.hops[0], fragment);
    let after = before.with(fragment);
    assert(post.message_storage.remove(key) =~= client.message_storage.remove(key));
    if before.expects(fragment.fragment_index) {
        assert(after.complete() <==> is_last_missing(client, key, fragment)) by {
            if after.complete() {
                assert forall|i: int| 0 <= i < before.received.len() && i != fragment.fragment_index implies
                    before.received[i] by {
                    assert(after.received[i]);
                }
                if !client.message_storage.contains_key(key) && fragment.total_n_fragments > 1 {
                    let other: int = if fragment.fragment_index == 0 {
                        1
                    } else {
                        0
                    };
                    assert(!before.received[other]);
                }
            }
        }
    }
}

/// A fragment that comes in is told of. If its message has a fragment of that number, and
/// the node that it came from last is a neighbour, exactly one confirmation goes to that
/// node: of this fragment, in this session, by the reverse of its route. This holds also of
/// the fragment that is the last one missing, and only then is there more to do, which is
/// to decode the message.
pub proof fn law_fragment_is_confirmed<C: Content>(
    client: ClientView<C>,
    header: HeaderView,
    session_id: u64,
    fragment: Fragment,
)
    requires
        header.hops.len() > 0,
    ensures
        ({
            let key = (session_id as usize, header.hops[0]);
            let post = client.fragment_received(header, session_id, fragment);
            let told = client.outbox.push(
                ActionView::Notify(EventView::DebugMessage(client.id, received_text(client.id, header.hops[0]))),
            );
            let answered = is_expected(client, key, fragment) && header.hops.len() > 1 && client.neighbors.contains(
                header.hops[header.hops.len() - 2],
            );
            let confirmed = if answered {
                told.push(
                    ActionView::Send {
                        packet: PacketView {
                            pack_type: BodyView::Ack(Ack { fragment_index: fragment.fragment_index }),
                            routing_header: HeaderView {
                                hop_index: 1,
                                hops: Seq::new(
                                    header.hops.len(),
                                    |i: int| header.hops[header.hops.len() - 1 - i],
                                ),
                            },
                            session_id,
                        },
                        recipient: header.hops[header.hops.len() - 2],
                    },
                )
            } else {
                told
            };
            if is_last_missing(client, key, fragment) {
                let data = post.outbox.last()->data;
                &&& post.outbox == confirmed.push(ActionView::Decode { session_id, src_id: header.hops[0], data })
                &&& holds_fragment(bytes_at(client, key), data, fragment)
            } else {
                post.outbox == confirmed
            }
        }),
{
    law_fragment_is_kept(client, header, session_id, fragment);
    assert(header.hops.reverse() =~= Seq::new(header.hops.len(), |i: int| header.hops[header.hops.len() - 1 - i]));
}

/// A fragment whose route names no sender changes nothing.
pub proof fn law_fragment_without_sender<C: Content>(
    client: ClientView<C>,
    header: HeaderView,
    session_id: u64,
    fragment: Fragment,
)
    requires
        header.hops.len() == 0,
    ensures
        client.fragment_received(header, session_id, fragment) == client,
{
}

/// The event that tells of a message from a server has the client and the server in it, and
/// the content of the message unchanged.
pub proof fn law_server_message_is_told<C: Content>(id: NodeId, src_id: NodeId, message: ServerMessages<C>)
    ensures
        ({
            let event = event_of(id, src_id, message);
            match message {
                ServerMessages::ServerType(t) => event == EventView::<C>::ServerTypeReceived(id, src_id, t),
                ServerMessages::ClientList(l) => event == EventView::<C>::ClientListReceived(id, src_id, l@),
                ServerMessages::FilesList(l) => event == EventView::<C>::FilesListReceived(id, src_id, l),
                ServerMessages::File(f) => event == EventView::<C>::FileReceived(id, src_id, f),
                ServerMessages::Media(m) => event == EventView::<C>::MediaReceived(id, src_id, m@),
                ServerMessages::MessageFrom(from, text) => event == EventView::<C>::MessageFromReceived(
                    id,
                    src_id,
                    from,
                    text@,
                ),
                ServerMessages::RegistrationOk => event == EventView::<C>::RegistrationOk(id, src_id),
                ServerMessages::RegistrationError(_) => event == EventView::<C>::RegistrationError(id, src_id),
                ServerMessages::Error(text) => event == EventView::<C>::Error(id, text@),
            }
        }),
{
}

/// A message that was decoded is told of once, and nothing else changes. One that could not
/// be decoded changes nothing.
pub proof fn law_decoded_message_is_told<C: Content>(
    client: ClientView<C>,
    src_id: NodeId,
    decoded: Option<TestMessage<C>>,
)
    ensures
        ({
            let post = client.message_processed(src_id, decoded);
            match decoded {
                Some(TestMessage::WebClientMessages(message)) => post == (ClientView {
                    outbox: client.outbox.push(ActionView::Notify(event_of(client.id, src_id, message))),
                    ..client
                }),
                Some(message) => post == (ClientView {
                    outbox: client.outbox.push(ActionView::Notify(EventView::MessageReceived(message))),
                    ..client
                }),
                None => post == client,
            }
        }),
{
}

// ---- routes ----

/// Whether place `i` of a path is reached from the place before it over a known link, in
/// whichever direction that is known.
pub open spec fn is_linked_to_previous(topology: Set<(NodeId, NodeId)>, p: Seq<NodeId>, i: int) -> bool {
    topology.contains((p[i - 1], p[i])) || topology.contains((p[i], p[i - 1]))
}

/// Whether `p` leads from `source` to `target` over known links and passes only through
/// drones that are not excluded. The target has to be of known type and not excluded as
/// well.
pub open spec fn is_way(
    topology: Set<(NodeId, NodeId)>,
    node_types: Map<NodeId, NodeType>,
    excluded: Set<NodeId>,
    source: NodeId,
    target: NodeId,
    p: Seq<NodeId>,
) -> bool {
    &&& p.len() > 0
    &&& p[0] == source
    &&& p[p.len() - 1] == target
    &&& forall|i: int|
        0 < i < p.len() ==> {
            &&& #[trigger] is_linked_to_previous(topology, p, i)
            &&& !excluded.contains(p[i])
            &&& node_types.contains_key(p[i])
            &&& node_types[p[i]] == NodeType::Drone || p[i] == target
        }
}

/// Whether `p` is such a way, and none is shorter.
pub open spec fn is_shortest_way(
    topology: Set<(NodeId, NodeId)>,
    node_types: Map<NodeId, NodeType>,
    excluded: Set<NodeId>,
    source: NodeId,
    target: NodeId,
    p: Seq<NodeId>,
) -> bool {
    &&& is_way(topology, node_types, excluded, source, target, p)
    &&& forall|other: Seq<NodeId>| #[trigger]
        is_way(topology, node_types, excluded, source, target, other) ==> p.len() <= other.len()
}

/// The routes that are looked for are the ways over known links, through drones that are
/// not excluded.
pub proof fn law_routes_are_ways(query: RouteQuery, p: Seq<NodeId>)
    ensures
        query.is_route(p) <==> is_way(
            query.topology,
            query.node_types,
            query.excluded,
            query.source,
            query.target,
            p,
        ),
{
    let way = is_way(query.topology, query.node_types, query.excluded, query.source, query.target, p);
    if query.is_route(p) {
        assert forall|i: int| 0 < i < p.len() implies {
            &&& #[trigger] is_linked_to_previous(query.topology, p, i)
            &&& !query.excluded.contains(p[i])
            &&& query.node_types.contains_key(p[i])
            &&& query.node_types[p[i]] == NodeType::Drone || p[i] == query.target
        } by {
            assert(query.may_step(p[i - 1], p[i - 1 + 1]));
        }
        assert(way);
    }
    if way {
        assert forall|i: int| 0 <= i < p.len() - 1 implies query.may_step(#[trigger] p[i], p[i + 1]) by {
            assert(is_linked_to_previous(query.topology, p, i + 1));
        }
    }
}

/// A route is found where there is a way, and then it is a shortest one.
pub proof fn law_shortest_routes_are_shortest_ways(query: RouteQuery)
    ensures
        query.has_route() <==> exists|p: Seq<NodeId>| #[trigger]
            is_way(query.topology, query.node_types, query.excluded, query.source, query.target, p),
        forall|p: Seq<NodeId>| #[trigger]
            query.is_shortest_route(p) <==> is_shortest_way(
                query.topology,
                query.node_types,
                query.excluded,
                query.source,
                query.target,
                p,
            ),
{
    assert forall|p: Seq<NodeId>|
        query.is_route(p) <==> #[trigger] is_way(
            query.topology,
            query.node_types,
            query.excluded,
            query.source,
            query.target,
            p,
        ) by {
        law_routes_are_ways(query, p);
    }
    if query.has_route() {
        let p = choose|p: Seq<NodeId>| query.is_route(p);
        assert(is_way(query.topology, query.node_types, query.excluded, query.source, query.target, p));
    }
    assert forall|p: Seq<NodeId>| #[trigger]
        query.is_shortest_route(p) <==> is_shortest_way(
            query.topology,
            query.node_types,
            query.excluded,
            query.source,
            query.target,
            p,
        ) by {
        assert(query.is_route(p) <==> is_way(
            query.topology,
            query.node_types,
            query.excluded,
            query.source,
            query.target,
            p,
        ));
        if query.is_shortest_route(p) {
            assert forall|other: Seq<NodeId>| #[trigger]
                is_way(query.topology, query.node_types, query.excluded, query.source, query.target, other)
                implies p.len() <= other.len() by {
                assert(query.is_route(other));
            }
        }
        if is_shortest_way(query.topology, query.node_types, query.excluded, query.source, query.target, p) {
            assert forall|other: Seq<NodeId>| #[trigger] query.is_route(other) implies p.len() <= other.len() by {
                assert(is_way(
                    query.topology,
                    query.node_types,
                    query.excluded,
                    query.source,
                    query.target,
                    other,
                ));
            }
        }
    }
}

/// The routes of a client are the shortest ways from the client through the network that it
/// knows.
pub proof fn law_client_finds_shortest_ways<C: Content>(client: ClientView<C>, target: NodeId, excluded: Set<NodeId>)
    ensures
        client.route_query(target, excluded).has_route() <==> exists|p: Seq<NodeId>| #[trigger]
            is_way(client.topology, client.node_types, excluded, client.id, target, p),
        forall|p: Seq<NodeId>| #[trigger]
            client.route_query(target, excluded).is_shortest_route(p) <==> is_shortest_way(
                client.topology,
                client.node_types,
                excluded,
                client.id,
                target,
                p,
            ),
{
    let query = client.route_query(target, excluded);
    law_shortest_routes_are_shortest_ways(query);
    assert(query.topology == client.topology && query.node_types == client.node_types);
    assert(query.excluded == excluded && query.source == client.id && query.target == target);
}

/// A message is to be cut for a shortest way to its target, of which the controller is told
/// first. Where there is no way, nothing is to be done. Either way no node is excluded any
/// more, and nothing else changes.
pub proof fn law_message_takes_a_shortest_way<C: Content>(
    pre: ClientView<C>,
    post: ClientView<C>,
    target: NodeId,
    message: TestMessage<C>,
)
    requires
        pre.message_routed(post, target, message),
    ensures
        ({
            let none = Set::<NodeId>::empty();
            let path = post.outbox.last()->path;
            if exists|p: Seq<NodeId>| #[trigger] is_way(pre.topology, pre.node_types, none, pre.id, target, p) {
                &&& is_shortest_way(pre.topology, pre.node_types, none, pre.id, target, path)
                &&& post == (ClientView {
                    excluded_nodes: none,
                    outbox: pre.outbox.push(ActionView::Notify(EventView::Route(path))).push(
                        ActionView::Fragment { path, message },
                    ),
                    ..pre
                })
            } else {
                post == (ClientView { excluded_nodes: none, ..pre })
            }
        }),
{
    let none = Set::<NodeId>::empty();
    law_client_finds_shortest_ways(pre, target, none);
    if pre.route_query(target, none).has_route() {
        let path = post.outbox.last()->path;
        assert(pre.route_query(target, none).is_shortest_route(path));
        assert(post.outbox =~= pre.outbox.push(ActionView::Notify(EventView::Route(path))).push(
            ActionView::Fragment { path, message },
        ));
    }
}

/// Whether `p` leads from `source` to `target` over known links, through nodes of known type
/// that are no clients, and passes no node twice. The target may be a client.
pub open spec fn is_simple_path(
    topology: Set<(NodeId, NodeId)>,
    node_types: Map<NodeId, NodeType>,
    source: NodeId,
    target: NodeId,
    p: Seq<NodeId>,
) -> bool {
    &&& p.len() > 0
    &&& p[0] == source
    &&& p[p.len() - 1] == target
    &&& forall|i: int, j: int| 0 <= i < j < p.len() ==> p[i] != p[j]
    &&& forall|i: int|
        0 < i < p.len() ==> {
            &&& #[trigger] is_linked_to_previous(topology, p, i)
            &&& node_types.contains_key(p[i])
            &&& node_types[p[i]] != NodeType::Client || p[i] == target
        }
}

/// The trails that are looked for are the simple paths through nodes that are no clients.
pub proof fn law_trails_are_simple_paths(query: TrailQuery, p: Seq<NodeId>)
    ensures
        query.is_full_trail(p) <==> is_simple_path(
            query.topology,
            query.node_types,
            query.source,
            query.target,
            p,
        ),
{
    let simple = is_simple_path(query.topology, query.node_types, query.source, query.target, p);
    if query.is_full_trail(p) {
        assert forall|i: int| 0 < i < p.len() implies {
            &&& #[trigger] is_linked_to_previous(query.topology, p, i)
            &&& query.node_types.contains_key(p[i])
            &&& query.node_types[p[i]] != NodeType::Client || p[i] == query.target
        } by {
            assert(query.may_step(p[i - 1], p[i - 1 + 1]));
        }
        assert(simple);
    }
    if simple {
        assert forall|i: int| 0 <= i < p.len() - 1 implies query.may_step(#[trigger] p[i], p[i + 1]) by {
            assert(is_linked_to_previous(query.topology, p, i + 1));
        }
        assert(p.no_duplicates());
    }
}

/// A list of all the trails has each simple path once, and nothing else.
pub proof fn law_all_trails_are_all_simple_paths(query: TrailQuery, paths: Seq<Seq<NodeId>>)
    requires
        query.are_all_trails(paths),
    ensures
        forall|i: int, j: int| 0 <= i < j < paths.len() ==> paths[i] != paths[j],
        forall|p: Seq<NodeId>|
            paths.contains(p) <==> #[trigger] is_simple_path(
                query.topology,
                query.node_types,
                query.source,
                query.target,
                p,
            ),
{
    assert forall|p: Seq<NodeId>|
        paths.contains(p) <==> #[trigger] is_simple_path(
            query.topology,
            query.node_types,
            query.source,
            query.target,
            p,
        ) by {
        law_trails_are_simple_paths(query, p);
        assert(paths.contains(p) <==> query.is_full_trail(p));
    }
}

/// All the trails of a client are the simple paths from the client through the network that
/// it knows, each once.
pub proof fn law_client_finds_all_simple_paths<C: Content>(
    client: ClientView<C>,
    target: NodeId,
    paths: Seq<Seq<NodeId>>,
)
    requires
        client.trail_query(target).are_all_trails(paths),
    ensures
        forall|i: int, j: int| 0 <= i < j < paths.len() ==> paths[i] != paths[j],
        forall|p: Seq<NodeId>|
            paths.contains(p) <==> #[trigger] is_simple_path(
                client.topology,
                client.node_types,
                client.id,
                target,
                p,
            ),
{
    let query = client.trail_query(target);
    law_all_trails_are_all_simple_paths(query, paths);
    assert(query.topology == client.topology && query.node_types == client.node_types);
    assert(query.source == client.id && query.target == target);
}

/// What is added to a list of paths comes behind what it held, has no path twice, and is
/// made up of the paths that begin with `start`, end at the target, and go on over known
/// links to nodes of known type that are no clients unless they are the target, and that the
/// path has not passed before.
pub proof fn law_added_paths_go_on(
    query: TrailQuery,
    start: Seq<NodeId>,
    before: Seq<Seq<NodeId>>,
    after: Seq<Seq<NodeId>>,
)
    requires
        start.len() > 0,
        query.trails_appended(start, before, after),
    ensures
        before.len() <= after.len(),
        forall|i: int| 0 <= i < before.len() ==> #[trigger] after[i] == before[i],
        forall|i: int, j: int| before.len() <= i < j < after.len() ==> after[i] != after[j],
        forall|p: Seq<NodeId>|
            after.skip(before.len() as int).contains(p) <==> #[trigger] continues(query, start, p),
{
    let added = after.skip(before.len() as int);
    assert forall|i: int| 0 <= i < before.len() implies #[trigger] after[i] == before[i] by {
        assert(after.take(before.len() as int)[i] == before[i]);
    }
    assert forall|i: int, j: int| before.len() <= i < j < after.len() implies after[i] != after[j] by {
        assert(added[i - before.len()] != added[j - before.len()]);
    }
    assert forall|p: Seq<NodeId>| added.contains(p) <==> #[trigger] continues(query, start, p) by {
        assert(added.contains(p) <==> query.goes_on(start, p));
        lemma_goes_on(query, start, p);
    }
}

/// Whether `p` begins with `start`, ends at the target, and goes on from `start` over known
/// links, to nodes of known type that are no clients unless they are the target, and that
/// it has not passed before.
pub open spec fn continues(query: TrailQuery, start: Seq<NodeId>, p: Seq<NodeId>) -> bool {
    &&& start.len() <= p.len()
    &&& forall|i: int| 0 <= i < start.len() ==> p[i] == #[trigger] start[i]
    &&& p[p.len() - 1] == query.target
    &&& forall|i: int, j: int| 0 <= i < j < p.len() && start.len() <= j ==> p[i] != p[j]
    &&& forall|i: int|
        start.len() <= i < p.len() ==> {
            &&& #[trigger] is_linked_to_previous(query.topology, p, i)
            &&& query.node_types.contains_key(p[i])
            &&& query.node_types[p[i]] != NodeType::Client || p[i] == query.target
        }
}

/// The paths that go on from `start` are those that continue it.
proof fn lemma_goes_on(query: TrailQuery, start: Seq<NodeId>, p: Seq<NodeId>)
    requires
        start.len() > 0,
    ensures
        query.goes_on(start, p) <==> continues(query, start, p),
{
    if query.goes_on(start, p) {
        assert forall|i: int| 0 <= i < start.len() implies p[i] == #[trigger] start[i] by {
            assert(start == p.subrange(0, start.len() as int));
        }
        assert forall|i: int| start.len() <= i < p.len() implies {
            &&& #[trigger] is_linked_to_previous(query.topology, p, i)
            &&& query.node_types.contains_key(p[i])
            &&& query.node_types[p[i]] != NodeType::Client || p[i] == query.target
        } by {
            assert(query.may_step(p[i - 1], p[i - 1 + 1]));
        }
    }
    if continues(query, start, p) {
        assert(start =~= p.subrange(0, start.len() as int));
        assert forall|i: int| start.len() <= i + 1 < p.len() implies query.may_step(#[trigger] p[i], p[i + 1]) by {
            assert(is_linked_to_previous(query.topology, p, i + 1));
        }
    }
}

// ---- confirmations ----

/// The fragments of a session that are confirmed, and one more.
pub open spec fn confirmed_with<C: Content>(client: ClientView<C>, session_id: u64, fragment_index: u64) -> Set<u64> {
    Set::new(
        |i: u64|
            i == fragment_index || (client.acked_fragments.contains_key(session_id)
                && client.acked_fragments[session_id].contains(i)),
    )
}

/// A confirmation is added to those of its session. If it is of a session that is pending,
/// and all the fragments of the session are confirmed with it, the session is pending no
/// longer and its confirmations are forgotten. The drops of the fragment in the session are
/// counted no longer. Nothing else changes, and nothing is to be done.
pub proof fn law_confirmation_is_noted<C: Content>(client: ClientView<C>, session_id: u64, fragment_index: u64)
    ensures
        ({
            let post = client.acked(session_id, fragment_index);
            let confirmed = confirmed_with(client, session_id, fragment_index);
            let done = client.pending_messages.contains_key(session_id) && forall|i: u64|
                i < client.pending_messages[session_id].len() ==> #[trigger] confirmed.contains(i);
            &&& post == (ClientView {
                pending_messages: if done {
                    client.pending_messages.remove(session_id)
                } else {
                    client.pending_messages
                },
                acked_fragments: if done {
                    client.acked_fragments.remove(session_id)
                } else {
                    client.acked_fragments.insert(session_id, confirmed)
                },
                nack_counter: post.nack_counter,
                ..client
            })
            &&& forall|key: (u64, u64, NodeId)| #[trigger]
                post.nack_counter.contains_key(key) <==> client.nack_counter.contains_key(key) && !(key.0
                    == fragment_index && key.1 == session_id)
            &&& forall|key: (u64, u64, NodeId)| #[trigger]
                post.nack_counter.contains_key(key) ==> post.nack_counter[key] == client.nack_counter[key]
        }),
{
    assert(confirmed_with(client, session_id, fragment_index) =~= client.confirmed(session_id).insert(fragment_index));
}

// ---- fragments that do not arrive ----

/// What a client has to do after it sent a packet by the route in its header, where the
/// second node of the route is a neighbour: to send this packet to that node. Else it has
/// nothing more to do.
pub open spec fn outbox_with<C: Content>(client: ClientView<C>, packet: PacketView) -> Seq<ActionView<C>> {
    let hops = packet.routing_header.hops;
    if hops.len() > 1 && client.neighbors.contains(hops[1]) {
        client.outbox.push(ActionView::Send { packet, recipient: hops[1] })
    } else {
        client.outbox
    }
}

/// A fragment that is dropped is counted, and up to the third time it is sent again as it
/// is to the second node of its route. Nothing else changes. A fragment that is not pending
/// is only counted.
pub proof fn law_dropped_fragment_is_sent_again<C: Content>(
    pre: ClientView<C>,
    post: ClientView<C>,
    nack: Nack,
    session_id: u64,
    drone: NodeId,
    fresh_id: u64,
)
    requires
        nack.nack_type == NackType::Dropped,
        pre.nack_counter.contains_key((nack.fragment_index, session_id, drone)) ==> pre.nack_counter[(
            nack.fragment_index,
            session_id,
            drone,
        )] < 3,
        pre.nacked(post, nack, session_id, drone, fresh_id),
    ensures
        ({
            let key = (nack.fragment_index, session_id, drone);
            let i = nack.fragment_index as usize as int;
            let count: u8 = if pre.nack_counter.contains_key(key) {
                (pre.nack_counter[key] + 1) as u8
            } else {
                1
            };
            post == (ClientView {
                nack_counter: pre.nack_counter.insert(key, count),
                outbox: if pre.pending_messages.contains_key(session_id) && i
                    < pre.pending_messages[session_id].len() {
                    outbox_with(pre, pre.pending_messages[session_id][i])
                } else {
                    pre.outbox
                },
                ..pre
            })
        }),
{
}

/// A fragment that a drone drops for the fourth time has the drone excluded. The controller
/// is told of the drop and of all the nodes that are excluded, the drops are counted from
/// the beginning, and the client looks for another way.
pub proof fn law_fourth_drop_excludes_the_drone<C: Content>(
    pre: ClientView<C>,
    post: ClientView<C>,
    nack: Nack,
    session_id: u64,
    drone: NodeId,
    fresh_id: u64,
)
    requires
        nack.nack_type == NackType::Dropped,
        pre.nack_counter.contains_key((nack.fragment_index, session_id, drone)),
        pre.nack_counter[(nack.fragment_index, session_id, drone)] == 3,
        pre.nacked(post, nack, session_id, drone, fresh_id),
    ensures
        (ClientView {
            nack_counter: pre.nack_counter.remove((nack.fragment_index, session_id, drone)),
            excluded_nodes: pre.excluded_nodes.insert(drone),
            outbox: pre.outbox.push(
                ActionView::Notify(
                    EventView::DebugMessage(pre.id, dropped_text(pre.id, 4, drone, nack.fragment_index)),
                ),
            ).push(
                ActionView::Notify(
                    EventView::DebugMessage(pre.id, excluded_text(pre.id, pre.excluded_nodes.insert(drone))),
                ),
            ),
            ..pre
        }).resent_by_new_path(post, session_id, nack.fragment_index),
{
}

/// A pending fragment is sent by another way, where there is one from the client to the
/// end of the route of the fragment that keeps clear of the excluded nodes. It is a
/// shortest such way, and every fragment of the session takes it from now on, otherwise
/// unchanged. The fragment that is asked for, and no other, is sent, to the second node of
/// the way. Where there is no such way, the controller is told twice, and nothing else
/// changes.
pub proof fn law_fragment_takes_another_way<C: Content>(
    pre: ClientView<C>,
    post: ClientView<C>,
    session_id: u64,
    fragment_index: u64,
)
    requires
        pre.resent_by_new_path(post, session_id, fragment_index),
        pre.pending_messages.contains_key(session_id),
        (fragment_index as usize) < pre.pending_messages[session_id].len(),
        pre.pending_messages[session_id][fragment_index as usize as int].routing_header.hops.len() > 0,
    ensures
        ({
            let i = fragment_index as usize as int;
            let fragments = pre.pending_messages[session_id];
            let hops = fragments[i].routing_header.hops;
            let target = hops[hops.len() - 1];
            if exists|p: Seq<NodeId>| #[trigger]
                is_way(pre.topology, pre.node_types, pre.excluded_nodes, pre.id, target, p) {
                let path = post.pending_messages[session_id][i].routing_header.hops;
                let moved = post.pending_messages[session_id];
                &&& is_shortest_way(pre.topology, pre.node_types, pre.excluded_nodes, pre.id, target, path)
                &&& post == (ClientView {
                    pending_messages: pre.pending_messages.insert(session_id, moved),
                    outbox: outbox_with(
                        pre,
                        PacketView { routing_header: HeaderView { hop_index: 1, hops: path }, ..fragments[i] },
                    ),
                    ..pre
                })
                &&& moved.len() == fragments.len()
                &&& forall|j: int|
                    0 <= j < moved.len() ==> #[trigger] moved[j] == (PacketView {
                        routing_header: HeaderView { hop_index: 1, hops: path },
                        ..fragments[j]
                    })
            } else {
                post == (ClientView {
                    outbox: pre.outbox.push(ActionView::Notify(EventView::Error(pre.id, no_route_text()))).push(
                        ActionView::Notify(EventView::Error(pre.id, stuck_text(fragment_index))),
                    ),
                    ..pre
                })
            }
        }),
{
    let i = fragment_index as usize as int;
    let fragments = pre.pending_messages[session_id];
    let hops = fragments[i].routing_header.hops;
    let target = hops[hops.len() - 1];
    law_client_finds_shortest_ways(pre, target, pre.excluded_nodes);
    let query = pre.route_query(target, pre.excluded_nodes);
    assert(pre.pending_target(session_id, fragment_index) == Some(target));
    if query.has_route() {
        let path = post.pending_messages[session_id][i].routing_header.hops;
        let moved = post.pending_messages[session_id];
        assert(query.is_shortest_route(path));
        assert(post.pending_messages =~= pre.pending_messages.insert(session_id, moved));
    }
}

/// A fragment that is not pending, or has no route, is not sent by another way, and nothing
/// changes.
pub proof fn law_unknown_fragment_takes_no_way<C: Content>(
    pre: ClientView<C>,
    post: ClientView<C>,
    session_id: u64,
    fragment_index: u64,
)
    requires
        pre.resent_by_new_path(post, session_id, fragment_index),
        !pre.pending_messages.contains_key(session_id) || (fragment_index as usize)
            >= pre.pending_messages[session_id].len()
            || pre.pending_messages[session_id][fragment_index as usize as int].routing_header.hops.len() == 0,
    ensures
        post == pre,
{
}

/// After any failure but a drop, the client explores the network anew, tells the controller
/// that it does, and then, if the fragment that failed is pending, sends this fragment
/// again as it is to the second node of its route. Nothing else changes.
pub proof fn law_failed_fragment_is_sent_again<C: Content>(
    pre: ClientView<C>,
    post: ClientView<C>,
    nack: Nack,
    session_id: u64,
    drone: NodeId,
    fresh_id: u64,
)
    requires
        nack.nack_type != NackType::Dropped,
        pre.nacked(post, nack, session_id, drone, fresh_id),
    ensures
        ({
            let i = nack.fragment_index as usize as int;
            let told = ClientView {
                outbox: pre.discovering(fresh_id).outbox.push(
                    ActionView::Notify(EventView::DebugMessage(pre.id, rediscovery_text(pre.id))),
                ),
                ..pre
            };
            post == (ClientView {
                topology: Set::empty(),
                node_types: Map::empty(),
                outbox: if pre.pending_messages.contains_key(session_id) && i
                    < pre.pending_messages[session_id].len() {
                    outbox_with(told, pre.pending_messages[session_id][i])
                } else {
                    told.outbox
                },
                ..pre
            })
        }),
{
}

// ---- exploring the network ----

/// A new client has the identifier, the neighbours and the use that it is given, and knows
/// nothing else. All that it has to do is to send to its neighbours.
pub proof fn law_new_client_knows_nothing<C: Content>(
    id: NodeId,
    neighbors: Set<NodeId>,
    client_type: ClientType,
    fresh_id: u64,
)
    ensures
        ({
            let post = ClientView::<C>::initial(id, neighbors, client_type).discovering(fresh_id);
            &&& post.id == id
            &&& post.neighbors == neighbors
            &&& post.client_type == client_type
            &&& post.message_storage == Map::<(usize, NodeId), PartialView>::empty()
            &&& post.topology == Set::<(NodeId, NodeId)>::empty()
            &&& post.node_types == Map::<NodeId, NodeType>::empty()
            &&& post.pending_messages == Map::<u64, Seq<PacketView>>::empty()
            &&& post.acked_fragments == Map::<u64, Set<u64>>::empty()
            &&& post.nack_counter == Map::<(u64, u64, NodeId), u8>::empty()
            &&& post.excluded_nodes == Set::<NodeId>::empty()
            &&& ClientView::<C>::initial(id, neighbors, client_type).outbox.len() == 0
        }),
{
}

/// A client that explores the network forgets what it knew of it, and sends one flood
/// request to each neighbour, along the link to that neighbour. All the requests have the
/// same number, which is made of the fresh number and the identifier of the client, and
/// start their trace with the client. Nothing else changes.
pub proof fn law_discovery_asks_every_neighbor<C: Content>(client: ClientView<C>, fresh_id: u64)
    requires
        fresh_id + client.id * 31 <= u64::MAX,
    ensures
        ({
            let post = client.discovering(fresh_id);
            let n = client.outbox.len() as int;
            let flood_id = (fresh_id + client.id * 31) as u64;
            &&& post == (ClientView {
                topology: Set::empty(),
                node_types: Map::empty(),
                outbox: post.outbox,
                ..client
            })
            &&& n <= post.outbox.len()
            &&& forall|i: int| 0 <= i < n ==> #[trigger] post.outbox[i] == client.outbox[i]
            &&& forall|i: int|
                n <= i < post.outbox.len() ==> {
                    let to = post.outbox[i]->recipient;
                    &&& client.neighbors.contains(to)
                    &&& #[trigger] post.outbox[i] == (ActionView::<C>::Send {
                        packet: PacketView {
                            pack_type: BodyView::FloodRequest {
                                flood_id,
                                initiator_id: client.id,
                                path_trace: seq![(client.id, NodeType::Client)],
                            },
                            routing_header: HeaderView { hop_index: 0, hops: seq![client.id, to] },
                            session_id: flood_id,
                        },
                        recipient: to,
                    })
                }
            &&& forall|i: int, j: int|
                n <= i < j < post.outbox.len() ==> (#[trigger] post.outbox[i])->recipient != (
                #[trigger] post.outbox[j])->recipient
            &&& forall|id: NodeId| #[trigger]
                client.neighbors.contains(id) ==> exists|i: int|
                    n <= i < post.outbox.len() && (#[trigger] post.outbox[i])->recipient == id
        }),
{
    let post = client.discovering(fresh_id);
    let n = client.outbox.len() as int;
    law_every_neighbor_is_flooded_once(client, fresh_id);
    assert forall|i: int| 0 <= i < n implies #[trigger] post.outbox[i] == client.outbox[i] by {
        assert(client.outbox == post.outbox.subrange(0, n));
    }
}

/// The answer to a flood request names the nodes of the request and the client behind them.
/// It goes back through every node that the request came through, the last one first, and
/// is sent to that one where it is a neighbour. It has the number of the flood and the
/// session of the request. Nothing else changes.
pub proof fn law_flood_answer_takes_the_way_back<C: Content>(
    client: ClientView<C>,
    flood_id: u64,
    trace: Seq<(NodeId, NodeType)>,
    session_id: u64,
)
    requires
        trace.len() > 0,
    ensures
        ({
            let post = client.flood_answered(flood_id, trace, session_id);
            let packet = post.outbox.last()->packet;
            let hops = packet.routing_header.hops;
            if client.neighbors.contains(trace[trace.len() - 1].0) {
                &&& post == (ClientView {
                    outbox: client.outbox.push(
                        ActionView::Send { packet, recipient: trace[trace.len() - 1].0 },
                    ),
                    ..client
                })
                &&& packet.session_id == session_id
                &&& packet.routing_header.hop_index == 1
                &&& packet.pack_type == (BodyView::FloodResponse {
                    flood_id,
                    path_trace: trace.push((client.id, NodeType::Client)),
                })
                &&& hops.len() == trace.len() + 1
                &&& hops[0] == client.id
                &&& forall|i: int| 0 <= i < trace.len() ==> #[trigger] hops[i + 1] == trace[trace.len() - 1 - i].0
            } else {
                post == client
            }
        }),
{
}

/// Whether two nodes follow one another in a trace.
pub open spec fn are_neighbors_in(trace: Seq<(NodeId, NodeType)>, a: NodeId, b: NodeId) -> bool {
    exists|i: int| #![trigger trace[i]] 0 <= i < trace.len() - 1 && trace[i].0 == a && trace[i + 1].0 == b
}

/// What a trace shows last of the type of a node is what is known of it, and what it does
/// not show stays as it was.
proof fn lemma_last_type_is_learned(node_types: Map<NodeId, NodeType>, trace: Seq<(NodeId, NodeType)>)
    ensures
        ({
            let post = learn_types(node_types, trace);
            &&& forall|i: int|
                0 <= i < trace.len() && (forall|j: int| i < j < trace.len() ==> trace[j].0 != trace[i].0) ==> {
                    &&& post.contains_key((#[trigger] trace[i]).0)
                    &&& post[trace[i].0] == trace[i].1
                }
            &&& forall|id: NodeId|
                (forall|i: int| 0 <= i < trace.len() ==> trace[i].0 != id) ==> {
                    &&& #[trigger] post.contains_key(id) <==> node_types.contains_key(id)
                    &&& node_types.contains_key(id) ==> post[id] == node_types[id]
                }
        }),
    decreases trace.len(),
{
    if trace.len() > 0 {
        let shorter = trace.drop_last();
        let before = learn_types(node_types, shorter);
        let post = learn_types(node_types, trace);
        lemma_last_type_is_learned(node_types, shorter);
        assert forall|i: int|
            0 <= i < trace.len() && (forall|j: int| i < j < trace.len() ==> trace[j].0 != trace[i].0) implies {
            &&& post.contains_key((#[trigger] trace[i]).0)
            &&& post[trace[i].0] == trace[i].1
        } by {
            if i < shorter.len() {
                assert(trace[trace.len() - 1].0 != trace[i].0);
                assert(shorter[i] == trace[i]);
                assert forall|j: int| i < j < shorter.len() implies shorter[j].0 != shorter[i].0 by {
                    assert(trace[j].0 != trace[i].0);
                }
                assert(before.contains_key(shorter[i].0));
            }
        }
        assert forall|id: NodeId| (forall|i: int| 0 <= i < trace.len() ==> trace[i].0 != id) implies {
            &&& #[trigger] post.contains_key(id) <==> node_types.contains_key(id)
            &&& node_types.contains_key(id) ==> post[id] == node_types[id]
        } by {
            assert(trace[trace.len() - 1].0 != id);
            assert forall|i: int| 0 <= i < shorter.len() implies shorter[i].0 != id by {
                assert(trace[i].0 != id);
            }
            assert(before.contains_key(id) <==> node_types.contains_key(id));
        }
    }
}

/// From a trace the client learns, beside what it knew, the links between nodes that follow
/// one another, in both directions, and no others; and of every node in it the type that
/// the trace shows last, and of no others. Nothing else changes but that there is a report
/// to show.
pub proof fn law_trace_is_learned<C: Content>(pre: ClientView<C>, post: ClientView<C>, trace: Seq<(NodeId, NodeType)>)
    requires
        pre.graph_updated(post, trace),
    ensures
        post == (ClientView {
            topology: post.topology,
            node_types: post.node_types,
            outbox: pre.outbox.push(post.outbox.last()),
            ..pre
        }),
        post.outbox.last() is Report,
        forall|a: NodeId, b: NodeId| #[trigger]
            post.topology.contains((a, b)) <==> pre.topology.contains((a, b)) || are_neighbors_in(trace, a, b)
                || are_neighbors_in(trace, b, a),
        forall|i: int|
            0 <= i < trace.len() && (forall|j: int| i < j < trace.len() ==> trace[j].0 != trace[i].0) ==> {
                &&& post.node_types.contains_key((#[trigger] trace[i]).0)
                &&& post.node_types[trace[i].0] == trace[i].1
            },
        forall|id: NodeId|
            (forall|i: int| 0 <= i < trace.len() ==> trace[i].0 != id) ==> {
                &&& #[trigger] post.node_types.contains_key(id) <==> pre.node_types.contains_key(id)
                &&& pre.node_types.contains_key(id) ==> post.node_types[id] == pre.node_types[id]
            },
{
    lemma_last_type_is_learned(pre.node_types, trace);
    assert(post.node_types == learn_types(pre.node_types, trace));
    assert forall|a: NodeId, b: NodeId| #[trigger] post.topology.contains((a, b)) <==> pre.topology.contains((a, b))
        || are_neighbors_in(trace, a, b) || are_neighbors_in(trace, b, a) by {
        if trace_links(trace, (a, b)) {
            let i = choose|i: int| 0 <= i < trace.len() - 1 && #[trigger] joins(trace, i, (a, b));
            assert(trace[i].0 == a || trace[i].0 == b);
        }
        if are_neighbors_in(trace, a, b) {
            let i = choose|i: int|
                #![trigger trace[i]]
                0 <= i < trace.len() - 1 && trace[i].0 == a && trace[i + 1].0 == b;
            assert(joins(trace, i, (a, b)));
        }
        if are_neighbors_in(trace, b, a) {
            let i = choose|i: int|
                #![trigger trace[i]]
                0 <= i < trace.len() - 1 && trace[i].0 == b && trace[i + 1].0 == a;
            assert(joins(trace, i, (a, b)));
        }
    }
}

/// A report counts the nodes and links that are known, and names each known server once, and
/// no other node, with all the simple paths to it, each once.
pub proof fn law_report_names_every_server<C: Content>(client: ClientView<C>, report: ReportView)
    requires
        client.is_report(report),
    ensures
        report.known_nodes == client.node_types.dom().len(),
        report.known_links == client.topology.len(),
        forall|i: int|
            0 <= i < report.servers.len() ==> {
                &&& client.node_types.contains_key((#[trigger] report.servers[i]).0)
                &&& client.node_types[report.servers[i].0] == NodeType::Server
            },
        forall|i: int, j: int|
            0 <= i < j < report.servers.len() ==> (#[trigger] report.servers[i]).0 != (
            #[trigger] report.servers[j]).0,
        forall|id: NodeId| #[trigger]
            client.node_types.contains_key(id) && client.node_types[id] == NodeType::Server ==> exists|i: int|
                0 <= i < report.servers.len() && (#[trigger] report.servers[i]).0 == id,
        forall|i: int, p: Seq<NodeId>|
            0 <= i < report.servers.len() ==> ((#[trigger] report.servers[i]).1.contains(p)
                <==> #[trigger] is_simple_path(
                client.topology,
                client.node_types,
                client.id,
                report.servers[i].0,
                p,
            )),
        forall|i: int, j: int, k: int|
            0 <= i < report.servers.len() && 0 <= j < k < report.servers[i].1.len()
                ==> #[trigger] report.servers[i].1[j] != #[trigger] report.servers[i].1[k],
{
    let servers = client.servers();
    let ids = ascending(servers);
    lemma_ascending_members(servers, 256);
    assert forall|i: int| 0 <= i < report.servers.len() implies {
        &&& client.node_types.contains_key((#[trigger] report.servers[i]).0)
        &&& client.node_types[report.servers[i].0] == NodeType::Server
    } by {
        assert(ids.contains(ids[i]));
    }
    assert forall|i: int, j: int| 0 <= i < j < report.servers.len() implies (#[trigger] report.servers[i]).0 != (
    #[trigger] report.servers[j]).0 by {
        assert(ids[i] != ids[j]);
    }
    assert forall|id: NodeId| #[trigger]
        client.node_types.contains_key(id) && client.node_types[id] == NodeType::Server implies exists|i: int|
        0 <= i < report.servers.len() && (#[trigger] report.servers[i]).0 == id by {
        assert(servers.contains(id));
        assert(ids.contains(id));
        let i = choose|i: int| 0 <= i < ids.len() && ids[i] == id;
        assert(report.servers[i].0 == id);
    }
    assert forall|i: int, p: Seq<NodeId>| 0 <= i < report.servers.len() implies ((
    #[trigger] report.servers[i]).1.contains(p) <==> #[trigger] is_simple_path(
        client.topology,
        client.node_types,
        client.id,
        report.servers[i].0,
        p,
    )) by {
        law_client_finds_all_simple_paths(client, report.servers[i].0, report.servers[i].1);
    }
    assert forall|i: int, j: int, k: int|
        0 <= i < report.servers.len() && 0 <= j < k < report.servers[i].1.len() implies
        #[trigger] report.servers[i].1[j] != #[trigger] report.servers[i].1[k] by {
        law_client_finds_all_simple_paths(client, report.servers[i].0, report.servers[i].1);
    }
}

/// The report that a trace leaves to show is of what the client knows with the trace.
pub proof fn law_trace_is_reported<C: Content>(pre: ClientView<C>, post: ClientView<C>, trace: Seq<(NodeId, NodeType)>)
    requires
        pre.graph_updated(post, trace),
    ensures
        post.is_report(post.outbox.last()->Report_0),
{
    let known = pre.with_trace(trace);
    let report = post.outbox.last()->Report_0;
    assert(post.topology == known.topology && post.node_types == known.node_types && post.id == known.id);
    assert(post.servers() =~= known.servers());
    assert forall|i: int| 0 <= i < report.servers.len() implies {
        &&& (#[trigger] report.servers[i]).0 == ascending(post.servers())[i]
        &&& post.trail_query(report.servers[i].0).are_all_trails(report.servers[i].1)
    } by {
        assert(post.trail_query(report.servers[i].0) == known.trail_query(report.servers[i].0));
    }
}

// ---- packets and commands ----

/// What is done about a packet goes by what it holds, in the session of the packet. The node
/// that did not pass on a fragment is the first one on the route of the notice.
pub proof fn law_packet_is_dealt_with<C: Content>(
    pre: ClientView<C>,
    post: ClientView<C>,
    packet: PacketView,
    fresh_id: u64,
)
    requires
        pre.packet_handled(post, packet, fresh_id),
    ensures
        match packet.pack_type {
            BodyView::MsgFragment(fragment) => post == pre.fragment_received(
                packet.routing_header,
                packet.session_id,
                fragment,
            ),
            BodyView::Ack(ack) => post == pre.acked(packet.session_id, ack.fragment_index),
            BodyView::Nack(nack) => pre.nacked(
                post,
                nack,
                packet.session_id,
                packet.routing_header.hops[0],
                fresh_id,
            ),
            BodyView::FloodRequest { flood_id, initiator_id, path_trace } => post == pre.flood_answered(
                flood_id,
                path_trace,
                packet.session_id,
            ),
            BodyView::FloodResponse { flood_id, path_trace } => pre.graph_updated(post, path_trace),
        },
{
}

/// A fragment that a client accepts is confirmed to the neighbour that it came from,
/// whether or not it completes its message: handling the packet adds exactly one packet to
/// send, to the last node but one of its route, which confirms this fragment in the session
/// of the packet.
pub proof fn law_packet_is_confirmed<C: Content>(
    pre: ClientView<C>,
    post: ClientView<C>,
    packet: PacketView,
    fresh_id: u64,
)
    requires
        pre.packet_handled(post, packet, fresh_id),
        packet.pack_type is MsgFragment,
        packet.routing_header.hops.len() > 1,
        pre.neighbors.contains(packet.routing_header.hops[packet.routing_header.hops.len() - 2]),
        is_expected(
            pre,
            (packet.session_id as usize, packet.routing_header.hops[0]),
            packet.pack_type->MsgFragment_0,
        ),
    ensures
        ({
            let hops = packet.routing_header.hops;
            let n = pre.outbox.len() as int;
            let answer = post.outbox[n + 1]->packet;
            &&& post.outbox.len() >= n + 2
            &&& post.outbox[n + 1] == (ActionView::<C>::Send { packet: answer, recipient: hops[hops.len() - 2] })
            &&& answer.pack_type == BodyView::Ack(
                Ack { fragment_index: packet.pack_type->MsgFragment_0.fragment_index },
            )
            &&& answer.session_id == packet.session_id
            &&& answer.routing_header.hop_index == 1
            &&& answer.routing_header.hops.len() == hops.len()
            &&& forall|i: int|
                0 <= i < hops.len() ==> #[trigger] answer.routing_header.hops[i] == hops[hops.len() - 1 - i]
            &&& forall|i: int|
                n <= i < post.outbox.len() && i != n + 1 ==> !(#[trigger] post.outbox[i] is Send)
        }),
{
    let fragment = packet.pack_type->MsgFragment_0;
    law_fragment_is_confirmed(pre, packet.routing_header, packet.session_id, fragment);
}

/// After a notice that a pending fragment failed otherwise than by a drop, the last thing to
/// do is to send this fragment again to the second node of its route, where that is a
/// neighbour.
pub proof fn law_failure_ends_with_the_fragment<C: Content>(
    pre: ClientView<C>,
    post: ClientView<C>,
    packet: PacketView,
    fresh_id: u64,
)
    requires
        pre.packet_handled(post, packet, fresh_id),
        packet.pack_type is Nack,
        packet.pack_type->Nack_0.nack_type != NackType::Dropped,
        pre.pending_messages.contains_key(packet.session_id),
        (packet.pack_type->Nack_0.fragment_index as usize) < pre.pending_messages[packet.session_id].len(),
    ensures
        ({
            let failed = pre.pending_messages[packet.session_id][packet.pack_type->Nack_0.fragment_index as usize as int];
            let hops = failed.routing_header.hops;
            hops.len() > 1 && pre.neighbors.contains(hops[1]) ==> post.outbox.last() == (ActionView::<C>::Send {
                packet: failed,
                recipient: hops[1],
            })
        }),
{
    law_failed_fragment_is_sent_again(
        pre,
        post,
        packet.pack_type->Nack_0,
        packet.session_id,
        packet.routing_header.hops[0],
        fresh_id,
    );
}

/// A command to ask something of a server has this question, and no other, cut for a way to
/// that server. A command to add or remove a neighbour changes the neighbours by this one
/// and has the network explored. A packet that comes as a command is dealt with as one that
/// comes by itself.
pub proof fn law_command_is_carried_out<C: Content>(
    pre: ClientView<C>,
    post: ClientView<C>,
    command: ClientCommand,
    fresh_id: u64,
)
    requires
        pre.command_handled(post, command, fresh_id),
    ensures
        match command {
            ClientCommand::RemoveSender(n) => post == (ClientView {
                neighbors: pre.neighbors.remove(n),
                ..pre
            }).discovering(fresh_id),
            ClientCommand::AddSender(n) => post == (ClientView {
                neighbors: pre.neighbors.insert(n),
                ..pre
            }).discovering(fresh_id),
            ClientCommand::RequestNetworkDiscovery => post == pre.discovering(fresh_id),
            ClientCommand::ControllerShortcut(packet) => pre.packet_handled(post, packet@, fresh_id),
            ClientCommand::ServerType(n) => pre.message_routed(
                post,
                n,
                TestMessage::WebServerMessages(ClientMessages::ServerType),
            ),
            ClientCommand::FilesList(n) => pre.message_routed(
                post,
                n,
                TestMessage::WebServerMessages(ClientMessages::FilesList),
            ),
            ClientCommand::File(n, file) => pre.message_routed(
                post,
                n,
                TestMessage::WebServerMessages(ClientMessages::File(file)),
            ),
            ClientCommand::Media(n, media) => pre.message_routed(
                post,
                n,
                TestMessage::WebServerMessages(ClientMessages::Media(media)),
            ),
            ClientCommand::ClientList(n) => pre.message_routed(
                post,
                n,
                TestMessage::WebServerMessages(ClientMessages::ClientList),
            ),
            ClientCommand::RegistrationToChat(n) => pre.message_routed(
                post,
                n,
                TestMessage::WebServerMessages(ClientMessages::RegistrationToChat),
            ),
            ClientCommand::MessageFor(n, target, text) => pre.message_routed(
                post,
                n,
                TestMessage::WebServerMessages(ClientMessages::MessageFor(target, text)),
            ),
        },
{
}

/// A request to a server is a message to that server that holds the request.
pub proof fn law_request_is_a_message<C: Content>(
    pre: ClientView<C>,
    post: ClientView<C>,
    server: NodeId,
    request: ClientMessages,
)
    ensures
        pre.request_routed(post, server, request) <==> pre.message_routed(
            post,
            server,
            TestMessage::WebServerMessages(request),
        ),
{
}

/// A neighbour that is added or removed changes nothing but the neighbours.
pub proof fn law_neighbors_change_by_one<C: Content>(client: ClientView<C>, n: NodeId)
    ensures
        client.with_neighbor(n) == (ClientView { neighbors: client.neighbors.insert(n), ..client }),
        client.without_neighbor(n) == (ClientView { neighbors: client.neighbors.remove(n), ..client }),
{
}

/// Every packet is dealt with, except: a fragment whose bytes no vector can hold, a flood
/// request or answer with an empty trace, a notice of a failure without a route, and, unless
/// the failure is a drop, one for which no flood can be numbered or whose fragment has no
/// second node on its route.
pub proof fn law_what_packets_are_accepted<C: Content>(client: ClientView<C>, packet: PacketView, fresh_id: u64)
    ensures
        client.accepts_packet(packet, fresh_id) <==> match packet.pack_type {
            BodyView::MsgFragment(fragment) => packet.routing_header.hops.len() == 0 || ((fragment.fragment_index + 1)
                * 128 <= isize::MAX && (client.message_storage.contains_key(
                (packet.session_id as usize, packet.routing_header.hops[0]),
            ) || fragment.total_n_fragments * 128 <= isize::MAX)),
            BodyView::Ack(ack) => true,
            BodyView::Nack(nack) => packet.routing_header.hops.len() > 0 && (nack.nack_type == NackType::Dropped || (
            fresh_id + client.id * 31 <= u64::MAX && (!client.pending_messages.contains_key(packet.session_id)
                || nack.fragment_index as usize >= client.pending_messages[packet.session_id].len()
                || client.pending_messages[packet.session_id][nack.fragment_index as usize as int].routing_header.hops.len()
                > 1))),
            BodyView::FloodRequest { flood_id, initiator_id, path_trace } => path_trace.len() > 0,
            BodyView::FloodResponse { flood_id, path_trace } => path_trace.len() > 0,
        },
{
}

/// Every command is carried out, except: one to explore the network for which no flood can
/// be numbered, and a packet that is not dealt with.
pub proof fn law_what_commands_are_accepted<C: Content>(client: ClientView<C>, command: ClientCommand, fresh_id: u64)
    ensures
        client.accepts_command(command, fresh_id) <==> match command {
            ClientCommand::RemoveSender(_) => fresh_id + client.id * 31 <= u64::MAX,
            ClientCommand::AddSender(_) => fresh_id + client.id * 31 <= u64::MAX,
            ClientCommand::RequestNetworkDiscovery => fresh_id + client.id * 31 <= u64::MAX,
            ClientCommand::ControllerShortcut(packet) => client.accepts_packet(packet@, fresh_id),
            _ => true,
        },
{
}

/// No more than three drops are counted of a fragment by a drone, and no count is of none.
pub proof fn law_what_is_well_formed<C: Content>(client: ClientView<C>)
    ensures
        client.wf() <==> forall|key: (u64, u64, NodeId)| #[trigger]
            client.nack_counter.contains_key(key) ==> 1 <= client.nack_counter[key] <= 3,
{
}

/// A client that chats browses once it is switched, and the other way round.
pub proof fn law_uses_are_switched()
    ensures
        ClientType::ChatClients.switched() == ClientType::WebBrowsers,
        ClientType::WebBrowsers.switched() == ClientType::ChatClients,
{
}

// ---- packets and what stands for them ----

/// The source of a route is its first node, and there is none where the route is empty.
pub proof fn law_source_is_the_first_hop(header: HeaderView)
    ensures
        header.hops.len() > 0 ==> header.source() == Some(header.hops[0]),
        header.hops.len() == 0 ==> header.source() == None::<NodeId>,
{
}

/// The packet that confirms a fragment names the fragment and the session, and has the route
/// that it is given.
pub proof fn law_confirmation_names_the_fragment(header: HeaderView, session_id: u64, fragment_index: u64)
    ensures
        ack_packet(header, session_id, fragment_index).pack_type == BodyView::Ack(Ack { fragment_index }),
        ack_packet(header, session_id, fragment_index).routing_header == header,
        ack_packet(header, session_id, fragment_index).session_id == session_id,
{
}

/// What stands for a packet has the content, the route and the session of the packet.
pub proof fn law_packets_are_seen_as_they_are(packet: Packet)
    ensures
        packet@.session_id == packet.session_id,
        packet@.routing_header.hop_index == packet.routing_header.hop_index,
        packet@.routing_header.hops == packet.routing_header.hops@,
        match packet.pack_type {
            PacketType::MsgFragment(fragment) => packet@.pack_type == BodyView::MsgFragment(fragment),
            PacketType::Ack(ack) => packet@.pack_type == BodyView::Ack(ack),
            PacketType::Nack(nack) => packet@.pack_type == BodyView::Nack(nack),
            PacketType::FloodRequest(request) => packet@.pack_type == (BodyView::FloodRequest {
                flood_id: request.flood_id,
                initiator_id: request.initiator_id,
                path_trace: request.path_trace@,
            }),
            PacketType::FloodResponse(response) => packet@.pack_type == (BodyView::FloodResponse {
                flood_id: response.flood_id,
                path_trace: response.path_trace@,
            }),
        },
{
}

/// What stands for an action has all that the action has.
pub proof fn law_actions_are_seen_as_they_are<C: Content>(action: Action<C>)
    ensures
        match action {
            Action::Send { packet, recipient } => action@ == (ActionView::<C>::Send { packet: packet@, recipient }),
            Action::Notify(event) => action@ == ActionView::<C>::Notify(event@),
            Action::Fragment { path, message } => action@ == (ActionView::<C>::Fragment { path: path@, message }),
            Action::Decode { session_id, src_id, data } => action@ == (ActionView::<C>::Decode {
                session_id,
                src_id,
                data: data@,
            }),
            Action::Report(report) => {
                &&& action@ is Report
                &&& action@->Report_0.known_nodes == report.known_nodes
                &&& action@->Report_0.known_links == report.known_links
                &&& action@->Report_0.servers.len() == report.servers@.len()
                &&& forall|i: int|
                    0 <= i < report.servers@.len() ==> {
                        &&& (#[trigger] action@->Report_0.servers[i]).0 == report.servers@[i].0
                        &&& action@->Report_0.servers[i].1.len() == report.servers@[i].1@.len()
                        &&& forall|j: int|
                            0 <= j < report.servers@[i].1@.len() ==> #[trigger] action@->Report_0.servers[i].1[j]
                                == report.servers@[i].1@[j]@
                    }
            },
        },
{
}

/// What stands for an event has all that the event has.
pub proof fn law_events_are_seen_as_they_are<C: Content>(event: ClientEvent<C>)
    ensures
        match event {
            ClientEvent::PacketSent(p) => event@ == EventView::<C>::PacketSent(p@),
            ClientEvent::MessageReceived(m) => event@ == EventView::<C>::MessageReceived(m),
            ClientEvent::ServerTypeReceived(a, b, t) => event@ == EventView::<C>::ServerTypeReceived(a, b, t),
            ClientEvent::ClientListReceived(a, b, l) => event@ == EventView::<C>::ClientListReceived(a, b, l@),
            ClientEvent::FilesListReceived(a, b, l) => event@ == EventView::<C>::FilesListReceived(a, b, l),
            ClientEvent::FileReceived(a, b, f) => event@ == EventView::<C>::FileReceived(a, b, f),
            ClientEvent::MediaReceived(a, b, m) => event@ == EventView::<C>::MediaReceived(a, b, m@),
            ClientEvent::MessageFromReceived(a, b, c, m) => event@ == EventView::<C>::MessageFromReceived(a, b, c, m@),
            ClientEvent::RegistrationOk(a, b) => event@ == EventView::<C>::RegistrationOk(a, b),
            ClientEvent::RegistrationError(a, b) => event@ == EventView::<C>::RegistrationError(a, b),
            ClientEvent::Route(p) => event@ == EventView::<C>::Route(p@),
            ClientEvent::DebugMessage(a, t) => event@ == EventView::<C>::DebugMessage(a, t@),
            ClientEvent::Error(a, t) => event@ == EventView::<C>::Error(a, t@),
        },
{
}

/// What stands for a list stands for its items one by one, in order.
pub proof fn law_lists_are_seen_item_by_item<C: Content>(
    packets: Seq<Packet>,
    actions: Seq<Action<C>>,
    paths: Seq<Vec<NodeId>>,
)
    ensures
        packet_views(packets).len() == packets.len(),
        forall|i: int| 0 <= i < packets.len() ==> #[trigger] packet_views(packets)[i] == packets[i]@,
        action_views(actions).len() == actions.len(),
        forall|i: int| 0 <= i < actions.len() ==> #[trigger] action_views(actions)[i] == actions[i]@,
        path_views(paths).len() == paths.len(),
        forall|i: int| 0 <= i < paths.len() ==> #[trigger] path_views(paths)[i] == paths[i]@,
{
}

/// The model of a client shows its fields as they are.
pub proof fn law_clients_are_seen_as_they_are<C: Content>(client: DronegowskiClient<C>)
    ensures
        client@.id == client.id,
        client@.client_type == client.client_type,
        client@.neighbors == client.neighbors@,
        client@.topology == client.topology@,
        client@.node_types == client.node_types@,
        forall|key: (usize, NodeId)| #[trigger]
            client@.message_storage.contains_key(key) <==> client.message_storage@.contains_key(key),
        forall|key: (usize, NodeId)| #[trigger]
            client.message_storage@.contains_key(key) ==> {
                &&& client@.message_storage[key].data == client.message_storage@[key].0@
                &&& client@.message_storage[key].received == client.message_storage@[key].1@
            },
{
}

/// The members of a set of nodes are listed in increasing order, each once, and nothing else.
pub proof fn law_members_are_in_order(s: Set<NodeId>)
    ensures
        forall|id: NodeId| #[trigger] ascending(s).contains(id) <==> s.contains(id),
        forall|i: int, j: int| 0 <= i < j < ascending(s).len() ==> ascending(s)[i] < ascending(s)[j],
{
    lemma_ascending_members(s, 256);
    lemma_increasing(s, 256);
}

/// The members below a number are in increasing order.
proof fn lemma_increasing(s: Set<NodeId>, n: nat)
    requires
        n <= 256,
    ensures
        forall|i: int, j: int|
            0 <= i < j < ascending_below(s, n).len() ==> ascending_below(s, n)[i] < ascending_below(s, n)[j],
    decreases n,
{
    if n > 0 {
        let shorter = ascending_below(s, (n - 1) as nat);
        let all = ascending_below(s, n);
        lemma_increasing(s, (n - 1) as nat);
        lemma_ascending_members(s, (n - 1) as nat);
        assert forall|i: int, j: int| 0 <= i < j < all.len() implies all[i] < all[j] by {
            assert(shorter.contains(shorter[i]));
        }
    }
}

// ---- texts ----

/// The number that a decimal notation stands for.
pub open spec fn value_of(digits: Seq<char>) -> nat
    decreases digits.len(),
{
    if digits.len() == 0 {
        0
    } else {
        value_of(digits.drop_last()) * 10 + (digits.last() as nat - '0' as nat) as nat
    }
}

/// A number is written with decimal digits only, without zeros in front, and what is written
/// stands for the number.
pub proof fn law_numbers_read_back(n: nat)
    ensures
        value_of(decimal(n)) == n,
        decimal(n).len() > 0,
        forall|i: int| 0 <= i < decimal(n).len() ==> '0' <= #[trigger] decimal(n)[i] <= '9',
        n > 0 ==> decimal(n)[0] != '0',
        n == 0 ==> decimal(n).len() == 1,
    decreases n,
{
    if n < 10 {
        assert(decimal(n).drop_last() =~= Seq::empty());
        assert(value_of(decimal(n).drop_last()) == 0);
    } else {
        law_numbers_read_back(n / 10);
        assert(decimal(n).drop_last() =~= decimal(n / 10));
    }
}

/// A list of nodes is written with a comma and a space before each node but the first.
pub proof fn law_lists_have_commas(ids: Seq<NodeId>, id: NodeId)
    ensures
        listing(Seq::empty()) == Seq::<char>::empty(),
        listing(seq![id]) == decimal(id as nat),
        ids.len() > 0 ==> listing(ids.push(id)) == listing(ids) + ", "@ + decimal(id as nat),
{
    assert(ids.push(id).drop_last() =~= ids);
}

/// The wording of the notices.
pub proof fn law_notices_are_worded(id: NodeId, node: NodeId, count: u8, index: u64, excluded: Set<NodeId>)
    ensures
        received_text(id, node) == "Client "@ + decimal(id as nat) + ": received from "@ + decimal(node as nat),
        dropped_text(id, count, node, index) == "Client "@ + decimal(id as nat) + ": nack drop "@ + decimal(count as nat)
            + " from "@ + decimal(node as nat) + " / "@ + decimal(index as nat),
        excluded_text(id, excluded) == "Client "@ + decimal(id as nat) + ": new route exclude {"@ + listing(
            ascending(excluded),
        ) + "}"@,
        rediscovery_text(id) == "Client "@ + decimal(id as nat) + ": new route?"@,
        no_route_text() == "not alternative path route available"@,
        stuck_text(index) == "No alternative path for fragment "@ + decimal(index as nat),
{
}

} // verus!
