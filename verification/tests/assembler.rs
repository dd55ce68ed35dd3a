//! Putting messages together from their fragments.

use dronegowski_client::assembler::{all_received, assembler, is_addressable};
use dronegowski_client::messages::{Action, ClientEvent, ClientType, Content, TestMessage};
use dronegowski_client::packet::{Ack, Fragment, Packet, PacketType, SourceRoutingHeader};
use dronegowski_client::DronegowskiClient;
use std::collections::BTreeSet;

#[derive(Clone, Debug, PartialEq)]
enum CustomEnum {
    Variant1(String),
    Variant2 { id: u32, value: f64 },
}

#[derive(Clone, Debug, PartialEq)]
enum Message {
    Text(String),
    Number(u32),
    Vector(Vec<u8>),
    Struct { id: u32, name: String, data: Vec<u8> },
    Enum(CustomEnum),
}

struct Plain;

impl Content for Plain {
    type ServerType = u8;
    type FilesList = Vec<String>;
    type File = String;
    type Message = Message;
}

fn serialize(message: &Message) -> Vec<u8> {
    match message {
        Message::Text(text) => bincode::serialize(&(0u32, text)),
        Message::Number(n) => bincode::serialize(&(1u32, n)),
        Message::Vector(v) => bincode::serialize(&(2u32, v)),
        Message::Struct { id, name, data } => bincode::serialize(&(3u32, id, name, data)),
        Message::Enum(CustomEnum::Variant1(text)) => bincode::serialize(&(4u32, 0u32, text)),
        Message::Enum(CustomEnum::Variant2 { id, value }) => bincode::serialize(&(4u32, 1u32, id, value)),
    }
    .expect("Serialization failed")
}

fn deserialize_message(bytes: &[u8]) -> Result<Message, String> {
    let tag: u32 = bincode::deserialize(bytes).map_err(|e| format!("{e}"))?;
    match tag {
        0 => {
            let (_, text): (u32, String) = bincode::deserialize(bytes).map_err(|e| format!("{e}"))?;
            Ok(Message::Text(text))
        }
        1 => {
            let (_, n): (u32, u32) = bincode::deserialize(bytes).map_err(|e| format!("{e}"))?;
            Ok(Message::Number(n))
        }
        2 => {
            let (_, v): (u32, Vec<u8>) = bincode::deserialize(bytes).map_err(|e| format!("{e}"))?;
            Ok(Message::Vector(v))
        }
        3 => {
            let (_, id, name, data): (u32, u32, String, Vec<u8>) =
                bincode::deserialize(bytes).map_err(|e| format!("{e}"))?;
            Ok(Message::Struct { id, name, data })
        }
        4 => {
            let (_, variant): (u32, u32) = bincode::deserialize(bytes).map_err(|e| format!("{e}"))?;
            match variant {
                0 => {
                    let (_, _, text): (u32, u32, String) =
                        bincode::deserialize(bytes).map_err(|e| format!("{e}"))?;
                    Ok(Message::Enum(CustomEnum::Variant1(text)))
                }
                1 => {
                    let (_, _, id, value): (u32, u32, u32, f64) =
                        bincode::deserialize(bytes).map_err(|e| format!("{e}"))?;
                    Ok(Message::Enum(CustomEnum::Variant2 { id, value }))
                }
                other => Err(format!("no variant {other}")),
            }
        }
        other => Err(format!("no message {other}")),
    }
}

fn fragment_packet(hops: Vec<u8>, session_id: u64, index: u64, total: u64, length: u8, data: [u8; 128]) -> Packet {
    Packet {
        pack_type: PacketType::MsgFragment(Fragment {
            fragment_index: index,
            total_n_fragments: total,
            length,
            data,
        }),
        routing_header: SourceRoutingHeader { hop_index: 0, hops },
        session_id,
    }
}

fn fragment_message(message: &Message, hops: Vec<u8>, session_id: u64) -> Vec<Packet> {
    let bytes = serialize(message);
    let total = bytes.chunks(128).count() as u64;
    let mut packets = Vec::new();
    for (i, chunk) in bytes.chunks(128).enumerate() {
        let mut data = [0u8; 128];
        data[..chunk.len()].copy_from_slice(chunk);
        packets.push(fragment_packet(hops.clone(), session_id, i as u64, total, chunk.len() as u8, data));
    }
    packets
}

fn client(id: u8, neighbors: Vec<u8>) -> DronegowskiClient<Plain> {
    let mut client = DronegowskiClient::new(
        id,
        neighbors.into_iter().collect::<BTreeSet<u8>>(),
        ClientType::ChatClients,
        1000,
    );
    client.take_actions();
    client
}

/// Performs what is left to do, and gives back what the controller is told.
fn events(client: &mut DronegowskiClient<Plain>) -> Vec<ClientEvent<Plain>> {
    let mut told = Vec::new();
    for action in client.take_actions() {
        match action {
            Action::Notify(event) => told.push(event),
            Action::Send { packet, .. } => told.push(ClientEvent::PacketSent(packet)),
            Action::Decode { src_id, data, .. } => {
                let decoded = deserialize_message(&data).ok().map(TestMessage::Other);
                client.process_reassembled_message(src_id, decoded);
                told.extend(events(client));
            }
            Action::Fragment { .. } => panic!("nothing was to be sent"),
            Action::Report(_) => {}
        }
    }
    told
}

#[test]
fn test_packet_received() {
    let mut client = client(1, vec![2]);
    let fragment1 = fragment_packet(
        vec![1, 2, 3],
        42,
        1,
        2,
        43,
        [0, 0, 0, 0, 31, 0, 0, 0, 0, 0, 0, 0, 81, 117, 101, 115, 116, 111, 32, 195, 168, 32, 117, 110, 32, 109, 101, 115, 115, 97, 103, 103, 105, 111, 32, 100, 105, 32, 116, 101, 115, 116, 33, 0, 0, 0, 0, 0, 0, 0, 0, 0, 0, 0, 0, 0, 0, 0, 0, 0, 0, 0, 0, 0, 0, 0, 0, 0, 0, 0, 0, 0, 0, 0, 0, 0, 0, 0, 0, 0, 0, 0, 0, 0, 0, 0, 0, 0, 0, 0, 0, 0, 0, 0, 0, 0, 0, 0, 0, 0, 0, 0, 0, 0, 0, 0, 0, 0, 0, 0, 0, 0, 0, 0, 0, 0, 0, 0, 0, 0, 0, 0, 0, 0, 0, 0, 0, 0],
    );
    let fragment2 = fragment_packet(
        vec![1, 2],
        42,
        0,
        2,
        12,
        [2, 0, 0, 0, 234, 0, 0, 0, 0, 0, 0, 0, 1, 3, 4, 5, 6, 7, 1, 3, 4, 5, 6, 7, 1, 3, 4, 5, 6, 7, 1, 3, 4, 5, 6, 7, 1, 3, 4, 5, 6, 7, 1, 3, 4, 5, 6, 7, 1, 3, 4, 5, 6, 7, 1, 3, 4, 5, 6, 7, 1, 3, 4, 5, 6, 7, 1, 3, 4, 5, 6, 7, 1, 3, 4, 5, 6, 7, 1, 3, 4, 5, 6, 7, 1, 3, 4, 5, 6, 7, 1, 3, 4, 5, 6, 7, 1, 3, 4, 5, 6, 7, 1, 3, 4, 5, 6, 7, 1, 3, 4, 5, 6, 7, 1, 3, 4, 5, 6, 7, 1, 3, 4, 5, 6, 7, 1, 3],
    );
    client.handle_packet(fragment1, 1);
    client.handle_packet(fragment2, 2);
    let mut received = Vec::new();
    for event in events(&mut client) {
        if let ClientEvent::MessageReceived(TestMessage::Other(message)) = event {
            received.push(message);
        }
    }
    assert_eq!(
        received,
        vec![Message::Vector(vec![1, 3, 4, 5, 6, 7, 1, 3, 4, 5, 6, 7, 1, 3, 4, 5, 6, 7, 1, 3, 4, 5, 6, 7, 1, 3, 4, 5, 6, 7, 1, 3, 4, 5, 6, 7, 1, 3, 4, 5, 6, 7, 1, 3, 4, 5, 6, 7, 1, 3, 4, 5, 6, 7, 1, 3, 4, 5, 6, 7, 1, 3, 4, 5, 6, 7, 1, 3, 4, 5, 6, 7, 1, 3, 4, 5, 6, 7, 1, 3, 4, 5, 6, 7, 1, 3, 4, 5, 6, 7, 1, 3, 4, 5, 6, 7, 1, 3, 4, 5, 6, 7, 1, 3, 4, 5, 6, 7, 1, 3, 4, 5, 6, 7, 1, 3, 0, 0, 0, 0, 31, 0, 0, 0, 0, 0, 0, 0, 81, 117, 101, 115, 116, 111, 32, 195, 168, 32, 117, 110, 32, 109, 101, 115, 115, 97, 103, 103, 105, 111, 32, 100, 105, 32, 116, 101, 115, 116, 33, 0, 0, 0, 0, 0, 0, 0, 0, 0, 0, 0, 0, 0, 0, 0, 0, 0, 0, 0, 0, 0, 0, 0, 0, 0, 0, 0, 0, 0, 0, 0, 0, 0, 0, 0, 0, 0, 0, 0, 0, 0, 0, 0, 0, 0, 0, 0, 0, 0, 0, 0, 0, 0, 0, 0, 0, 0, 0, 0, 0, 0, 0, 0, 0, 0, 0, 0, 0, 0, 0, 0, 0, 0, 0, 0])]
    );
}

#[test]
fn test_assembler_correct_order() {
    let mut entry = vec![];
    let fragment0 = Fragment { fragment_index: 0, total_n_fragments: 2, length: 128, data: [1; 128] };
    let fragment1 = Fragment { fragment_index: 1, total_n_fragments: 2, length: 128, data: [2; 128] };

    assembler(&mut entry, &fragment0);
    assembler(&mut entry, &fragment1);

    let expected_data: Vec<u8> = vec![1; 128].into_iter().chain(vec![2; 128]).collect();
    assert_eq!(entry, expected_data);
}

#[test]
fn test_assembler_out_of_order() {
    let mut entry = vec![];
    let fragment1 = Fragment { fragment_index: 1, total_n_fragments: 2, length: 128, data: [2; 128] };
    let fragment0 = Fragment { fragment_index: 0, total_n_fragments: 2, length: 128, data: [1; 128] };

    assembler(&mut entry, &fragment1);
    assembler(&mut entry, &fragment0);

    let expected_data: Vec<u8> = vec![1; 128].into_iter().chain(vec![2; 128]).collect();
    assert_eq!(entry, expected_data);
}

#[test]
fn test_message_fragmentation_and_reassembly() {
    let test_cases = vec![
        Message::Text(String::from("Questo \u{e8} un messaggio di test!")),
        Message::Number(123456u32),
        Message::Vector(vec![1, 2, 3, 4, 5]),
        Message::Struct { id: 42, name: String::from("Esempio"), data: vec![10, 20, 30] },
        Message::Enum(CustomEnum::Variant1(String::from("Test Enum"))),
        Message::Enum(CustomEnum::Variant2 { id: 1, value: 3.14 }),
    ];

    let session_id = 42;
    let hops = vec![1, 2, 3];

    for message in test_cases {
        let packets = fragment_message(&message, hops.clone(), session_id);
        assert!(!packets.is_empty());

        let serialized_message = serialize(&message);
        let mut reassembled_message = vec![0u8; serialized_message.len()];
        for packet in &packets {
            if let PacketType::MsgFragment(fragment) = &packet.pack_type {
                assembler(&mut reassembled_message, fragment);
            }
        }

        let deserialized_message =
            deserialize_message(&reassembled_message).expect("Failed to deserialize message");
        assert_eq!(message, deserialized_message);
    }
}

#[test]
fn test_deserialize_message() {
    let mut entry = vec![2; 128];
    assembler(
        &mut entry,
        &Fragment { fragment_index: 0, total_n_fragments: 2, length: 128, data: [1; 128] },
    );
    assert_eq!(entry, vec![1; 128]);
    assert!(deserialize_message(&entry).is_err());
}

#[test]
fn test_out_of_order_fragments() {
    let message = Message::Vector(vec![1,3,4,5,6,7,1,3,4,5,6,7,1,3,4,5,6,7,1,3,4,5,6,7,1,3,4,5,6,7,1,3,4,5,6,7,1,3,4,5,6,7,1,3,4,5,6,7,1,3,4,5,6,7,1,3,4,5,6,7,1,3,4,5,6,7,1,3,4,5,6,7,1,3,4,5,6,7,1,3,4,5,6,7,1,3,4,5,6,7,1,3,4,5,6,7,1,3,4,5,6,7,1,3,4,5,6,7,1,3,4,5,6,7,1,3,4,5,6,7,1,3,4,5,6,7,1,3,4,5,6,7,1,3,4,5,6,7,1,3,4,5,6,7,1,3,4,5,6,7,1,3,4,5,6,7,1,3,4,5,6,7,1,3,4,5,6,7,1,3,4,5,6,7,1,3,4,5,6,7,1,3,4,5,6,7,1,3,4,5,6,7,1,3,4,5,6,7,1,3,4,5,6,7,1,3,4,5,6,7,1,3,4,5,6,7,1,3,4,5,6,7,1,3,4,5,6,7,1,3,4,5,6,7]);
    let mut reassembled_message = vec![0u8; 255];

    let packet1 = fragment_packet(
        vec![1, 2, 3],
        42,
        0,
        2,
        128,
        [2, 0, 0, 0, 234, 0, 0, 0, 0, 0, 0, 0, 1, 3, 4, 5, 6, 7, 1, 3, 4, 5, 6, 7, 1, 3, 4, 5, 6, 7, 1, 3, 4, 5, 6, 7, 1, 3, 4, 5, 6, 7, 1, 3, 4, 5, 6, 7, 1, 3, 4, 5, 6, 7, 1, 3, 4, 5, 6, 7, 1, 3, 4, 5, 6, 7, 1, 3, 4, 5, 6, 7, 1, 3, 4, 5, 6, 7, 1, 3, 4, 5, 6, 7, 1, 3, 4, 5, 6, 7, 1, 3, 4, 5, 6, 7, 1, 3, 4, 5, 6, 7, 1, 3, 4, 5, 6, 7, 1, 3, 4, 5, 6, 7, 1, 3, 4, 5, 6, 7, 1, 3, 4, 5, 6, 7, 1, 3],
    );
    let packet2 = fragment_packet(
        vec![1, 2, 3],
        42,
        1,
        2,
        118,
        [4, 5, 6, 7, 1, 3, 4, 5, 6, 7, 1, 3, 4, 5, 6, 7, 1, 3, 4, 5, 6, 7, 1, 3, 4, 5, 6, 7, 1, 3, 4, 5, 6, 7, 1, 3, 4, 5, 6, 7, 1, 3, 4, 5, 6, 7, 1, 3, 4, 5, 6, 7, 1, 3, 4, 5, 6, 7, 1, 3, 4, 5, 6, 7, 1, 3, 4, 5, 6, 7, 1, 3, 4, 5, 6, 7, 1, 3, 4, 5, 6, 7, 1, 3, 4, 5, 6, 7, 1, 3, 4, 5, 6, 7, 1, 3, 4, 5, 6, 7, 1, 3, 4, 5, 6, 7, 1, 3, 4, 5, 6, 7, 1, 3, 4, 5, 6, 7, 0, 0, 0, 0, 0, 0, 0, 0, 0, 0],
    );

    if let PacketType::MsgFragment(fragment) = &packet1.pack_type {
        assembler(&mut reassembled_message, fragment);
    }
    if let PacketType::MsgFragment(fragment) = &packet2.pack_type {
        assembler(&mut reassembled_message, fragment);
    }

    let deserialized_message =
        deserialize_message(&reassembled_message).expect("Failed to deserialize message");
    assert_eq!(message, deserialized_message);
}

#[test]
fn gaps_are_filled_with_zeros() {
    let mut entry = vec![7; 3];
    assembler(
        &mut entry,
        &Fragment { fragment_index: 2, total_n_fragments: 3, length: 1, data: [9; 128] },
    );
    assert_eq!(entry.len(), 384);
    assert_eq!(entry[..3], [7, 7, 7]);
    assert!(entry[3..256].iter().all(|b| *b == 0));
    assert!(entry[256..].iter().all(|b| *b == 9));
}

#[test]
fn messages_come_whole_in_any_order() {
    let message = Message::Vector((0..250).collect());
    for order in [[0, 1, 2], [2, 1, 0], [1, 2, 0], [2, 0, 1]] {
        let mut client = client(1, vec![2]);
        let packets = fragment_message(&Message::Vector((0..250).collect()), vec![9, 2, 1], 5);
        assert_eq!(packets.len(), 3);
        for (i, n) in order.iter().enumerate() {
            client.handle_packet(packets[*n].clone(), 0);
            assert_eq!(client.message_storage.len(), if i < 2 { 1 } else { 0 });
            if i < 2 {
                // a fragment that comes again changes nothing
                client.handle_packet(packets[*n].clone(), 0);
            }
        }
        let mut received = Vec::new();
        for event in events(&mut client) {
            if let ClientEvent::MessageReceived(TestMessage::Other(message)) = event {
                received.push(message);
            }
        }
        assert_eq!(received, vec![message.clone()]);
    }
}

#[test]
fn messages_come_whole_among_other_packets() {
    let mut client = client(1, vec![2]);
    let first = Message::Vector((0..250).collect());
    let second = Message::Text("another session".repeat(20));
    let third = Message::Number(3);
    let a = fragment_message(&Message::Vector((0..250).collect()), vec![9, 2, 1], 5);
    let b = fragment_message(&Message::Text("another session".repeat(20)), vec![9, 2, 1], 6);
    let c = fragment_message(&Message::Number(3), vec![8, 2, 1], 5);
    assert_eq!((a.len(), b.len(), c.len()), (3, 3, 1));
    let mut received = Vec::new();
    for packet in [&a[2], &b[0], &c[0], &a[0], &b[2], &b[0], &a[1], &b[1]] {
        client.handle_packet(packet.clone(), 0);
        // no message is stored of which every fragment has arrived
        assert!(client.message_storage.values().all(|(_, arrived)| arrived.iter().any(|a| !*a)));
        for event in events(&mut client) {
            if let ClientEvent::MessageReceived(TestMessage::Other(message)) = event {
                received.push(message);
            }
        }
    }
    assert_eq!(received, vec![third, first, second]);
    assert!(client.message_storage.is_empty());
}

#[test]
fn arrivals_stay_marked() {
    let mut client = client(1, vec![2]);
    client.handle_packet(fragment_packet(vec![9, 2, 1], 77, 1, 3, 128, [5; 128]), 0);
    // a fragment that the message does not have, one that is there, and one of another message
    client.handle_packet(fragment_packet(vec![9, 2, 1], 77, 3, 3, 128, [6; 128]), 0);
    client.handle_packet(fragment_packet(vec![9, 2, 1], 77, 1, 8, 128, [7; 128]), 0);
    client.handle_packet(fragment_packet(vec![9, 2, 1], 78, 0, 2, 128, [8; 128]), 0);
    assert_eq!(client.message_storage[&(77, 9)].1, vec![false, true, false]);
    // a message without fragments is never complete
    client.handle_packet(fragment_packet(vec![9, 2, 1], 79, 0, 0, 128, [9; 128]), 0);
    assert_eq!(client.message_storage[&(79, 9)].1, Vec::<bool>::new());
}

#[test]
fn fragments_are_confirmed_by_the_reverse_route() {
    let mut client = client(1, vec![2]);
    client.handle_packet(fragment_packet(vec![9, 4, 2, 1], 77, 1, 3, 128, [5; 128]), 0);
    let actions = client.take_actions();
    assert_eq!(actions.len(), 2);
    match &actions[0] {
        Action::Notify(ClientEvent::DebugMessage(id, text)) => {
            assert_eq!(*id, 1);
            assert_eq!(text, "Client 1: received from 9");
        }
        _ => panic!("a notice was expected"),
    }
    match &actions[1] {
        Action::Send { packet, recipient } => {
            assert_eq!(*recipient, 2);
            assert_eq!(packet.pack_type, PacketType::Ack(Ack { fragment_index: 1 }));
            assert_eq!(packet.routing_header, SourceRoutingHeader { hop_index: 1, hops: vec![1, 2, 4, 9] });
            assert_eq!(packet.session_id, 77);
        }
        _ => panic!("a confirmation was expected"),
    }
    let (data, received) = &client.message_storage[&(77, 9)];
    assert_eq!(data.len(), 256);
    assert_eq!(*received, vec![false, true, false]);
}

#[test]
fn fragments_without_a_way_back_are_kept_unconfirmed() {
    let mut client = client(1, vec![2]);
    client.handle_packet(fragment_packet(vec![9], 77, 0, 2, 128, [5; 128]), 0);
    assert_eq!(client.take_actions().len(), 1);
    client.handle_packet(fragment_packet(vec![9, 3, 1], 78, 0, 2, 128, [5; 128]), 0);
    assert_eq!(client.take_actions().len(), 1);
    assert_eq!(client.message_storage.len(), 2);
}

#[test]
fn fragments_that_the_message_does_not_have_are_not_confirmed() {
    let mut client = client(1, vec![2]);
    client.handle_packet(fragment_packet(vec![9, 2, 1], 77, 2, 2, 128, [5; 128]), 0);
    assert_eq!(client.take_actions().len(), 1);
    let (data, received) = &client.message_storage[&(77, 9)];
    assert_eq!(data.len(), 384);
    assert_eq!(*received, vec![false, false]);
}

#[test]
fn fragments_without_sender_are_passed_over() {
    let mut client = client(1, vec![2]);
    client.handle_packet(fragment_packet(vec![], 77, 0, 1, 128, [5; 128]), 0);
    assert_eq!(client.take_actions().len(), 0);
    assert!(client.message_storage.is_empty());
}

#[test]
fn packets_of_other_kinds_are_no_fragments() {
    let mut client = client(1, vec![2]);
    client.handle_message_fragment(Packet::new_ack(
        SourceRoutingHeader { hop_index: 1, hops: vec![9, 2, 1] },
        5,
        0,
    ));
    assert_eq!(client.take_actions().len(), 0);
    assert!(client.message_storage.is_empty());
}

#[test]
fn messages_that_cannot_be_decoded_are_dropped() {
    let mut client = client(1, vec![2]);
    client.handle_packet(fragment_packet(vec![9, 2, 1], 77, 0, 1, 128, [1; 128]), 0);
    let told = events(&mut client);
    assert_eq!(told.len(), 2);
    assert!(matches!(told[0], ClientEvent::DebugMessage(..)));
    assert!(matches!(told[1], ClientEvent::PacketSent(_)));
    assert!(client.message_storage.is_empty());
}

#[test]
fn fragments_past_the_address_space_are_not_accepted() {
    let client = client(1, vec![2]);
    let limit = isize::MAX as u64 / 128;
    assert!(is_addressable(limit));
    assert!(!is_addressable(limit + 1));
    assert!(client.accepts_packet(&fragment_packet(vec![9], 1, limit - 1, limit, 128, [0; 128]), 0));
    assert!(!client.accepts_packet(&fragment_packet(vec![9], 1, limit, limit, 128, [0; 128]), 0));
    assert!(!client.accepts_packet(&fragment_packet(vec![9], 1, u64::MAX, 1, 128, [0; 128]), 0));
    assert!(!client.accepts_packet(&fragment_packet(vec![9], 1, 0, limit + 1, 128, [0; 128]), 0));
    assert!(client.accepts_packet(&fragment_packet(vec![], 1, u64::MAX, u64::MAX, 128, [0; 128]), 0));
}

#[test]
fn arrivals_are_counted() {
    assert!(all_received(&vec![]));
    assert!(all_received(&vec![true, true]));
    assert!(!all_received(&vec![true, false]));
}
