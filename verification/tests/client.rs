//! What the client does with packets and commands.

use dronegowski_client::messages::{
    delivery_report, Action, ClientCommand, ClientEvent, ClientMessages, ClientType, Content, ServerMessages, TestMessage,
};
use dronegowski_client::packet::{
    Ack, FloodRequest, FloodResponse, Fragment, Nack, NackType, NodeType, Packet, PacketType, SourceRoutingHeader,
};
use dronegowski_client::DronegowskiClient;
use std::collections::BTreeSet;

struct Plain;

impl Content for Plain {
    type ServerType = &'static str;
    type FilesList = Vec<String>;
    type File = String;
    type Message = u64;
}

type Client = DronegowskiClient<Plain>;

fn started(id: u8, neighbors: Vec<u8>) -> Client {
    let mut client = DronegowskiClient::new(
        id,
        neighbors.into_iter().collect::<BTreeSet<u8>>(),
        ClientType::ChatClients,
        1000,
    );
    client.take_actions();
    client
}

fn header(hop_index: usize, hops: Vec<u8>) -> SourceRoutingHeader {
    SourceRoutingHeader { hop_index, hops }
}

fn response(path_trace: Vec<(u8, NodeType)>) -> Packet {
    Packet {
        routing_header: header(0, vec![]),
        session_id: 0,
        pack_type: PacketType::FloodResponse(FloodResponse { flood_id: 12, path_trace }),
    }
}

fn fragment(hops: Vec<u8>, session_id: u64, index: u64, total: u64) -> Packet {
    Packet {
        pack_type: PacketType::MsgFragment(Fragment {
            fragment_index: index,
            total_n_fragments: total,
            length: 128,
            data: [index as u8; 128],
        }),
        routing_header: header(0, hops),
        session_id,
    }
}

fn nack(hops: Vec<u8>, session_id: u64, fragment_index: u64, nack_type: NackType) -> Packet {
    Packet {
        pack_type: PacketType::Nack(Nack { fragment_index, nack_type }),
        routing_header: header(1, hops),
        session_id,
    }
}

fn ack(session_id: u64, fragment_index: u64) -> Packet {
    Packet {
        pack_type: PacketType::Ack(Ack { fragment_index }),
        routing_header: header(1, vec![12, 4, 1]),
        session_id,
    }
}

fn sent(action: &Action<Plain>) -> (&Packet, u8) {
    match action {
        Action::Send { packet, recipient } => (packet, *recipient),
        _ => panic!("a packet was expected"),
    }
}

fn debug_text(action: &Action<Plain>) -> (u8, &str) {
    match action {
        Action::Notify(ClientEvent::DebugMessage(id, text)) => (*id, text.as_str()),
        _ => panic!("a notice was expected"),
    }
}

fn error_text(action: &Action<Plain>) -> (u8, &str) {
    match action {
        Action::Notify(ClientEvent::Error(id, text)) => (*id, text.as_str()),
        _ => panic!("an error was expected"),
    }
}

/// A client with two ways to the server 12: through the drone 4, and through the drones
/// 6 and 11. Session 50 has two fragments on their way through 4.
fn sending() -> Client {
    let mut client = started(1, vec![4, 6]);
    client.handle_packet(
        response(vec![(1, NodeType::Client), (4, NodeType::Drone), (12, NodeType::Server)]),
        0,
    );
    client.handle_packet(
        response(vec![
            (1, NodeType::Client),
            (6, NodeType::Drone),
            (11, NodeType::Drone),
            (12, NodeType::Server),
        ]),
        0,
    );
    client.send_fragments(
        vec![1, 4, 12],
        50,
        vec![fragment(vec![1, 4, 12], 50, 0, 2), fragment(vec![1, 4, 12], 50, 1, 2)],
    );
    client.take_actions();
    client
}

#[test]
fn test() {
    let mut client: Client = DronegowskiClient::new(
        2,
        [2].into_iter().collect::<BTreeSet<u8>>(),
        ClientType::ChatClients,
        7,
    );
    println!("Hello world!");
    assert_eq!(client.take_actions().len(), 1);
}

#[test]
fn test_network_discovery_protocol() {
    let mut client = started(1, vec![2]);
    let packet1 = response(vec![(1, NodeType::Server), (4, NodeType::Drone), (12, NodeType::Server)]);
    let packet2 = response(vec![
        (1, NodeType::Server),
        (6, NodeType::Drone),
        (11, NodeType::Drone),
        (2, NodeType::Drone),
        (12, NodeType::Server),
    ]);
    let packet3 = response(vec![
        (1, NodeType::Server),
        (6, NodeType::Drone),
        (4, NodeType::Drone),
        (12, NodeType::Server),
    ]);
    client.handle_packet(packet3, 0);
    client.handle_packet(packet2, 0);
    client.handle_packet(packet1, 0);

    let mut links: BTreeSet<(u8, u8)> = BTreeSet::new();
    for (a, b) in [(1, 4), (4, 12), (1, 6), (6, 11), (11, 2), (2, 12), (6, 4)] {
        links.insert((a, b));
        links.insert((b, a));
    }
    assert_eq!(client.topology, links);
    assert_eq!(client.node_types.len(), 6);
    assert_eq!(client.node_types[&1], NodeType::Server);
    assert_eq!(client.node_types[&11], NodeType::Drone);
    assert_eq!(client.node_types[&12], NodeType::Server);

    let actions = client.take_actions();
    assert_eq!(actions.len(), 3);
    match &actions[2] {
        Action::Report(report) => {
            assert_eq!(report.known_nodes, 6);
            assert_eq!(report.known_links, 14);
            assert_eq!(report.servers.len(), 2);
            assert_eq!(report.servers[0].0, 1);
            assert_eq!(report.servers[0].1, vec![vec![1]]);
            assert_eq!(report.servers[1].0, 12);
            let mut paths = report.servers[1].1.clone();
            paths.sort();
            assert_eq!(
                paths,
                vec![
                    vec![1, 4, 6, 11, 2, 12],
                    vec![1, 4, 12],
                    vec![1, 6, 4, 12],
                    vec![1, 6, 11, 2, 12],
                ]
            );
        }
        _ => panic!("a report was expected"),
    }
}

#[test]
fn server_type() {
    let mut client = started(1, vec![4]);
    let packet1 = response(vec![(1, NodeType::Client), (4, NodeType::Drone), (12, NodeType::Server)]);
    let packet2 = response(vec![
        (1, NodeType::Client),
        (6, NodeType::Drone),
        (11, NodeType::Drone),
        (2, NodeType::Drone),
        (12, NodeType::Server),
    ]);
    let packet3 = response(vec![
        (1, NodeType::Client),
        (6, NodeType::Drone),
        (4, NodeType::Drone),
        (12, NodeType::Server),
    ]);
    client.handle_packet(packet3, 0);
    client.handle_packet(packet2, 0);
    client.handle_packet(packet1, 0);
    client.take_actions();

    client.handle_client_command(ClientCommand::ServerType(12), 0);
    let mut actions = client.take_actions();
    assert_eq!(actions.len(), 2);
    match &actions[0] {
        Action::Notify(ClientEvent::Route(path)) => assert_eq!(*path, vec![1, 4, 12]),
        _ => panic!("the route was expected"),
    }
    match actions.pop() {
        Some(Action::Fragment { path, message: TestMessage::WebServerMessages(request) }) => {
            assert_eq!(path, vec![1, 4, 12]);
            assert_eq!(request, ClientMessages::ServerType);
            client.send_fragments(path, 50, vec![fragment(vec![1, 4, 12], 50, 0, 1)]);
        }
        _ => panic!("a message to cut was expected"),
    }
    let actions = client.take_actions();
    assert_eq!(actions.len(), 1);
    let (packet, recipient) = sent(&actions[0]);
    assert_eq!(recipient, 4);
    match delivery_report::<Plain>(packet.clone(), true) {
        Some(ClientEvent::PacketSent(received_packet)) => {
            assert_eq!(received_packet, fragment(vec![1, 4, 12], 50, 0, 1));
        }
        _ => panic!("Unexpected event type received."),
    }
    assert!(delivery_report::<Plain>(packet.clone(), false).is_none());
}

#[test]
fn a_new_client_floods_its_neighbours() {
    let mut client: Client = DronegowskiClient::new(
        3,
        [9, 2].into_iter().collect::<BTreeSet<u8>>(),
        ClientType::WebBrowsers,
        1000,
    );
    let actions = client.take_actions();
    assert_eq!(actions.len(), 2);
    for (i, neighbor) in [2u8, 9u8].into_iter().enumerate() {
        let (packet, recipient) = sent(&actions[i]);
        assert_eq!(recipient, neighbor);
        assert_eq!(
            *packet,
            Packet {
                pack_type: PacketType::FloodRequest(FloodRequest {
                    flood_id: 1093,
                    initiator_id: 3,
                    path_trace: vec![(3, NodeType::Client)],
                }),
                routing_header: header(0, vec![3, neighbor]),
                session_id: 1093,
            }
        );
    }
    assert_eq!(client.take_actions().len(), 0);
}

#[test]
fn discovery_forgets_the_network() {
    let mut client = sending();
    assert_eq!(client.compute_route(&12), Some(vec![1, 4, 12]));
    client.handle_client_command(ClientCommand::RequestNetworkDiscovery, 5);
    assert_eq!(client.take_actions().len(), 2);
    assert!(client.topology.is_empty());
    assert!(client.node_types.is_empty());
    assert_eq!(client.compute_route(&12), None);
}

#[test]
fn identifiers_of_floods_must_fit() {
    let client = started(2, vec![]);
    assert!(client.flood_id_fits(u64::MAX - 62));
    assert!(!client.flood_id_fits(u64::MAX - 61));
    assert!(!client.accepts_command(&ClientCommand::AddSender(1), u64::MAX));
    assert!(!client.accepts_command(&ClientCommand::RemoveSender(1), u64::MAX));
    assert!(!client.accepts_command(&ClientCommand::RequestNetworkDiscovery, u64::MAX));
    assert!(client.accepts_command(&ClientCommand::ServerType(1), u64::MAX));
}

#[test]
fn neighbours_come_and_go() {
    let mut client = started(1, vec![2]);
    client.handle_client_command(ClientCommand::AddSender(7), 0);
    let actions = client.take_actions();
    assert_eq!(actions.iter().map(|a| sent(a).1).collect::<Vec<u8>>(), vec![2, 7]);
    client.handle_client_command(ClientCommand::RemoveSender(2), 0);
    let actions = client.take_actions();
    assert_eq!(actions.iter().map(|a| sent(a).1).collect::<Vec<u8>>(), vec![7]);
    client.handle_client_command(ClientCommand::RemoveSender(2), 0);
    assert_eq!(client.take_actions().len(), 1);
    assert_eq!(client.neighbors.len(), 1);
}

#[test]
fn requests_go_to_servers() {
    let requests = vec![
        (ClientCommand::ServerType(12), ClientMessages::ServerType),
        (ClientCommand::FilesList(12), ClientMessages::FilesList),
        (ClientCommand::File(12, 8), ClientMessages::File(8)),
        (ClientCommand::Media(12, 9), ClientMessages::Media(9)),
        (ClientCommand::ClientList(12), ClientMessages::ClientList),
        (ClientCommand::RegistrationToChat(12), ClientMessages::RegistrationToChat),
        (
            ClientCommand::MessageFor(12, 30, "ciao".to_string()),
            ClientMessages::MessageFor(30, "ciao".to_string()),
        ),
    ];
    for (command, request) in requests {
        let mut client = sending();
        client.handle_client_command(command, 0);
        let mut actions = client.take_actions();
        assert_eq!(actions.len(), 2);
        match actions.pop() {
            Some(Action::Fragment { path, message: TestMessage::WebServerMessages(r) }) => {
                assert_eq!(path, vec![1, 4, 12]);
                assert_eq!(r, request);
            }
            _ => panic!("a message to cut was expected"),
        }
    }
}

#[test]
fn requests_to_unknown_servers_go_nowhere() {
    let mut client = sending();
    client.request_file_list(&99);
    assert_eq!(client.take_actions().len(), 0);
}

#[test]
fn fragments_wait_even_without_a_way_out() {
    // no neighbour takes them
    let mut client = started(1, vec![]);
    client.send_fragments(vec![1, 4, 12], 50, vec![fragment(vec![1, 4, 12], 50, 0, 1)]);
    assert_eq!(client.take_actions().len(), 0);
    // the path ends at the client
    client.send_fragments(vec![1], 51, vec![fragment(vec![1], 51, 0, 1)]);
    assert_eq!(client.take_actions().len(), 0);
    client.neighbors.insert(4);
    client.handle_packet(nack(vec![4, 1], 50, 0, NackType::Dropped), 0);
    assert_eq!(client.take_actions().len(), 1);
    client.handle_packet(nack(vec![4, 1], 51, 0, NackType::Dropped), 0);
    assert_eq!(client.take_actions().len(), 0);
}

#[test]
fn dropped_fragments_are_sent_again_and_then_rerouted() {
    let mut client = sending();
    for _ in 0..3 {
        client.handle_packet(nack(vec![4, 1], 50, 1, NackType::Dropped), 0);
        let actions = client.take_actions();
        assert_eq!(actions.len(), 1);
        assert_eq!(sent(&actions[0]), (&fragment(vec![1, 4, 12], 50, 1, 2), 4));
    }
    client.handle_packet(nack(vec![4, 1], 50, 1, NackType::Dropped), 0);
    let actions = client.take_actions();
    assert_eq!(actions.len(), 3);
    assert_eq!(debug_text(&actions[0]), (1, "Client 1: nack drop 4 from 4 / 1"));
    assert_eq!(debug_text(&actions[1]), (1, "Client 1: new route exclude {4}"));
    let mut rerouted = fragment(vec![1, 6, 11, 12], 50, 1, 2);
    rerouted.routing_header.hop_index = 1;
    assert_eq!(sent(&actions[2]), (&rerouted, 6));
    // the other fragment of the session has the new route too
    client.handle_packet(nack(vec![6, 1], 50, 0, NackType::Dropped), 0);
    let actions = client.take_actions();
    let mut other = fragment(vec![1, 6, 11, 12], 50, 0, 2);
    other.routing_header.hop_index = 1;
    assert_eq!(sent(&actions[0]), (&other, 6));
}

#[test]
fn drops_are_counted_by_fragment_and_drone() {
    let mut client = sending();
    for drone in [4, 5] {
        for index in [0, 1] {
            for _ in 0..3 {
                client.handle_packet(nack(vec![drone, 1], 50, index, NackType::Dropped), 0);
            }
        }
    }
    assert_eq!(client.take_actions().len(), 12);
    // a confirmation starts the count again
    client.handle_packet(ack(50, 0), 0);
    client.handle_packet(nack(vec![4, 1], 50, 0, NackType::Dropped), 0);
    let actions = client.take_actions();
    assert_eq!(actions.len(), 1);
    assert_eq!(sent(&actions[0]).1, 4);
    client.handle_packet(nack(vec![4, 1], 50, 1, NackType::Dropped), 0);
    assert_eq!(client.take_actions().len(), 3);
}

#[test]
fn without_another_way_the_controller_is_told() {
    let mut client = sending();
    for drone in [6, 4] {
        for _ in 0..4 {
            client.handle_packet(nack(vec![drone, 1], 50, 1, NackType::Dropped), 0);
        }
    }
    let actions = client.take_actions();
    let n = actions.len();
    assert_eq!(debug_text(&actions[n - 4]), (1, "Client 1: nack drop 4 from 4 / 1"));
    assert_eq!(debug_text(&actions[n - 3]), (1, "Client 1: new route exclude {4, 6}"));
    assert_eq!(error_text(&actions[n - 2]), (1, "not alternative path route available"));
    assert_eq!(error_text(&actions[n - 1]), (1, "No alternative path for fragment 1"));
    // a new message starts with no node excluded
    client.request_server_type(&12);
    match &client.take_actions()[0] {
        Action::Notify(ClientEvent::Route(path)) => assert_eq!(*path, vec![1, 4, 12]),
        _ => panic!("the route was expected"),
    }
}

#[test]
fn drops_of_unknown_fragments_are_only_counted() {
    let mut client = sending();
    client.handle_packet(nack(vec![4, 1], 51, 0, NackType::Dropped), 0);
    client.handle_packet(nack(vec![4, 1], 50, 2, NackType::Dropped), 0);
    client.handle_packet(nack(vec![4, 1], 50, u64::MAX, NackType::Dropped), 0);
    assert_eq!(client.take_actions().len(), 0);
    for _ in 0..3 {
        client.handle_packet(nack(vec![4, 1], 51, 18446744073709551615, NackType::Dropped), 0);
    }
    assert_eq!(client.take_actions().len(), 0);
    client.handle_packet(nack(vec![4, 1], 51, 18446744073709551615, NackType::Dropped), 0);
    let actions = client.take_actions();
    assert_eq!(actions.len(), 2);
    assert_eq!(debug_text(&actions[0]), (1, "Client 1: nack drop 4 from 4 / 18446744073709551615"));
}

#[test]
fn other_failures_start_a_discovery() {
    for failure in [
        NackType::ErrorInRouting(4),
        NackType::DestinationIsDrone,
        NackType::UnexpectedRecipient(9),
    ] {
        let mut client = sending();
        client.handle_packet(nack(vec![4, 1], 50, 0, failure), 200);
        let actions = client.take_actions();
        assert_eq!(actions.len(), 4);
        assert_eq!(sent(&actions[0]).0.session_id, 231);
        assert_eq!(sent(&actions[0]).1, 4);
        assert_eq!(sent(&actions[1]).1, 6);
        assert_eq!(debug_text(&actions[2]), (1, "Client 1: new route?"));
        assert_eq!(sent(&actions[3]), (&fragment(vec![1, 4, 12], 50, 0, 2), 4));
        assert!(client.topology.is_empty());
    }
}

#[test]
fn some_failures_cannot_be_dealt_with() {
    let mut client = started(1, vec![4]);
    client.send_fragments(vec![1], 50, vec![fragment(vec![1], 50, 0, 1)]);
    assert!(!client.accepts_packet(&nack(vec![4], 50, 0, NackType::DestinationIsDrone), 0));
    assert!(client.accepts_packet(&nack(vec![4], 50, 1, NackType::DestinationIsDrone), 0));
    assert!(!client.accepts_packet(&nack(vec![4], 50, 1, NackType::DestinationIsDrone), u64::MAX));
    assert!(client.accepts_packet(&nack(vec![4], 50, 0, NackType::Dropped), u64::MAX));
    assert!(!client.accepts_packet(&nack(vec![], 50, 0, NackType::Dropped), 0));
    assert!(!client.accepts_packet(&response(vec![]), 0));
}

#[test]
fn confirmed_sessions_are_forgotten() {
    let mut client = sending();
    client.handle_packet(ack(50, 1), 0);
    client.handle_packet(ack(50, 1), 0);
    client.handle_packet(nack(vec![4, 1], 50, 0, NackType::Dropped), 0);
    assert_eq!(client.take_actions().len(), 1);
    client.handle_packet(ack(50, 0), 0);
    client.handle_packet(nack(vec![4, 1], 50, 0, NackType::Dropped), 0);
    assert_eq!(client.take_actions().len(), 0);
}

#[test]
fn confirmations_of_other_fragments_do_not_end_a_session() {
    let mut client = sending();
    client.handle_packet(ack(50, 0), 0);
    client.handle_packet(ack(50, 9), 0);
    // fragment 1 is still pending
    client.handle_packet(nack(vec![4, 1], 50, 1, NackType::Dropped), 0);
    assert_eq!(client.take_actions().len(), 1);
    client.handle_packet(ack(50, 1), 0);
    client.handle_packet(nack(vec![4, 1], 50, 1, NackType::Dropped), 0);
    assert_eq!(client.take_actions().len(), 0);
}

#[test]
fn confirmations_before_a_session_count() {
    let mut client = started(1, vec![4]);
    client.handle_packet(ack(50, 0), 0);
    client.send_fragments(
        vec![1, 4, 12],
        50,
        vec![fragment(vec![1, 4, 12], 50, 0, 2), fragment(vec![1, 4, 12], 50, 1, 2)],
    );
    assert_eq!(client.take_actions().len(), 2);
    client.handle_packet(ack(50, 1), 0);
    client.handle_packet(nack(vec![4, 1], 50, 1, NackType::Dropped), 0);
    assert_eq!(client.take_actions().len(), 0);
}

#[test]
fn a_neighbour_that_comes_and_goes_is_flooded_while_it_is_one() {
    let mut client = started(1, vec![4, 6]);
    client.update_graph(vec![(1, NodeType::Client), (4, NodeType::Drone)]);
    client.take_actions();
    let recipients = |client: &mut Client| -> Vec<u8> {
        client.take_actions().iter().map(|action| sent(action).1).collect()
    };
    client.add_neighbor(5, 0);
    assert!(client.topology.is_empty() && client.node_types.is_empty());
    assert_eq!(recipients(&mut client), vec![4, 5, 6]);
    client.remove_neighbor(&5, 1);
    assert_eq!(client.neighbors, [4, 6].into_iter().collect::<BTreeSet<u8>>());
    assert_eq!(recipients(&mut client), vec![4, 6]);
    client.remove_neighbor(&9, 2);
    assert_eq!(client.neighbors, [4, 6].into_iter().collect::<BTreeSet<u8>>());
    assert_eq!(recipients(&mut client), vec![4, 6]);
}

#[test]
fn flood_requests_are_answered() {
    let mut client = started(1, vec![4]);
    let request = |trace: Vec<(u8, NodeType)>| Packet {
        pack_type: PacketType::FloodRequest(FloodRequest { flood_id: 6, initiator_id: 20, path_trace: trace }),
        routing_header: header(0, vec![20, 4, 1]),
        session_id: 66,
    };
    client.handle_packet(request(vec![(20, NodeType::Server), (4, NodeType::Drone)]), 0);
    let actions = client.take_actions();
    assert_eq!(actions.len(), 1);
    assert_eq!(
        sent(&actions[0]),
        (
            &Packet {
                pack_type: PacketType::FloodResponse(FloodResponse {
                    flood_id: 6,
                    path_trace: vec![(20, NodeType::Server), (4, NodeType::Drone), (1, NodeType::Client)],
                }),
                routing_header: header(1, vec![1, 4, 20]),
                session_id: 66,
            },
            4
        )
    );
    client.handle_packet(request(vec![(20, NodeType::Server), (5, NodeType::Drone)]), 0);
    assert_eq!(client.take_actions().len(), 0);
    assert!(!client.accepts_packet(&request(vec![]), 0));
    client.handle_flood_request(ack(1, 1));
    assert_eq!(client.take_actions().len(), 0);
}

#[test]
fn answers_of_servers_are_told() {
    let mut client = started(1, vec![]);
    let answers: Vec<ServerMessages<Plain>> = vec![
        ServerMessages::ServerType("chat"),
        ServerMessages::ClientList(vec![3, 4]),
        ServerMessages::FilesList(vec!["a".to_string()]),
        ServerMessages::File("text".to_string()),
        ServerMessages::Media(vec![1, 2]),
        ServerMessages::MessageFrom(8, "ciao".to_string()),
        ServerMessages::RegistrationOk,
        ServerMessages::RegistrationError("no".to_string()),
        ServerMessages::Error("bad".to_string()),
    ];
    for answer in answers {
        client.process_reassembled_message(12, Some(TestMessage::WebClientMessages(answer)));
    }
    client.process_reassembled_message(12, Some(TestMessage::Other(99)));
    client.process_reassembled_message(12, None);
    let actions = client.take_actions();
    assert_eq!(actions.len(), 10);
    assert!(matches!(&actions[0], Action::Notify(ClientEvent::ServerTypeReceived(1, 12, t)) if *t == "chat"));
    assert!(matches!(&actions[1], Action::Notify(ClientEvent::ClientListReceived(1, 12, l)) if *l == vec![3, 4]));
    assert!(matches!(&actions[2], Action::Notify(ClientEvent::FilesListReceived(1, 12, l)) if l.len() == 1));
    assert!(matches!(&actions[3], Action::Notify(ClientEvent::FileReceived(1, 12, f)) if f == "text"));
    assert!(matches!(&actions[4], Action::Notify(ClientEvent::MediaReceived(1, 12, m)) if *m == vec![1, 2]));
    assert!(matches!(&actions[5], Action::Notify(ClientEvent::MessageFromReceived(1, 12, 8, m)) if m == "ciao"));
    assert!(matches!(&actions[6], Action::Notify(ClientEvent::RegistrationOk(1, 12))));
    assert!(matches!(&actions[7], Action::Notify(ClientEvent::RegistrationError(1, 12))));
    assert_eq!(error_text(&actions[8]), (1, "bad"));
    assert!(matches!(&actions[9], Action::Notify(ClientEvent::MessageReceived(TestMessage::Other(99)))));
}

#[test]
fn shortcuts_are_packets() {
    let mut client = started(1, vec![]);
    client.handle_client_command(
        ClientCommand::ControllerShortcut(response(vec![(1, NodeType::Client), (4, NodeType::Drone)])),
        0,
    );
    assert_eq!(client.topology.len(), 2);
    assert!(!client.accepts_command(&ClientCommand::ControllerShortcut(response(vec![])), 0));
}

#[test]
fn switching_twice_changes_nothing() {
    let mut client = started(1, vec![]);
    client.switch_client_type();
    assert_eq!(client.client_type, ClientType::WebBrowsers);
    client.switch_client_type();
    assert_eq!(client.client_type, ClientType::ChatClients);
}

#[test]
fn sessions_do_not_touch_each_other() {
    let mut client = sending();
    client.send_fragments(vec![1, 4, 12], 60, vec![fragment(vec![1, 4, 12], 60, 0, 1)]);
    client.take_actions();
    // session 50 is rerouted, and then confirmed
    for _ in 0..4 {
        client.handle_packet(nack(vec![4, 1], 50, 1, NackType::Dropped), 0);
    }
    client.handle_packet(ack(50, 0), 0);
    client.handle_packet(ack(50, 1), 0);
    client.take_actions();
    client.handle_packet(nack(vec![4, 1], 60, 0, NackType::Dropped), 0);
    let actions = client.take_actions();
    assert_eq!(actions.len(), 1);
    assert_eq!(sent(&actions[0]), (&fragment(vec![1, 4, 12], 60, 0, 1), 4));
}

#[test]
fn known_links_go_both_ways_between_known_nodes() {
    let client = sending();
    assert_eq!(client.topology.len(), 10);
    for (a, b) in &client.topology {
        assert!(client.topology.contains(&(*b, *a)));
        assert!(client.node_types.contains_key(a));
    }
    // what a later trace says of a node replaces what was known
    let mut client = started(1, vec![]);
    client.update_graph(vec![(4, NodeType::Server), (4, NodeType::Drone)]);
    assert_eq!(client.node_types[&4], NodeType::Drone);
    assert_eq!(client.topology.len(), 1);
    client.update_graph(vec![(4, NodeType::Client)]);
    assert_eq!(client.node_types[&4], NodeType::Client);
    assert_eq!(client.topology.len(), 1);
}

#[test]
fn what_is_left_to_do_waits_in_order() {
    let mut client = sending();
    client.request_server_type(&12);
    client.handle_packet(nack(vec![4, 1], 50, 0, NackType::Dropped), 0);
    client.handle_packet(nack(vec![9, 1], 50, 1, NackType::Dropped), 0);
    let actions = client.take_actions();
    assert_eq!(actions.len(), 4);
    assert!(matches!(&actions[0], Action::Notify(ClientEvent::Route(_))));
    assert!(matches!(&actions[1], Action::Fragment { .. }));
    assert_eq!(sent(&actions[2]).0, &fragment(vec![1, 4, 12], 50, 0, 2));
    assert_eq!(sent(&actions[3]).0, &fragment(vec![1, 4, 12], 50, 1, 2));
}
