//! Routes, trails, and the texts that tell of them.

use dronegowski_client::ids::members;
use dronegowski_client::messages::{ClientType, Content};
use dronegowski_client::packet::{NodeType, SourceRoutingHeader};
use dronegowski_client::routing::find_route;
use dronegowski_client::text::{dropped_notice, excluded_notice, no_route_error, received_notice, rediscovery_notice, stuck_error};
use dronegowski_client::trails::find_paths_recursive;
use dronegowski_client::DronegowskiClient;
use std::collections::{BTreeMap, BTreeSet};

struct Plain;

impl Content for Plain {
    type ServerType = u8;
    type FilesList = u8;
    type File = u8;
    type Message = u8;
}

fn links(pairs: &[(u8, u8)]) -> BTreeSet<(u8, u8)> {
    pairs.iter().copied().collect()
}

fn types(drones: &[u8], clients: &[u8], servers: &[u8]) -> BTreeMap<u8, NodeType> {
    let mut types = BTreeMap::new();
    for n in drones {
        types.insert(*n, NodeType::Drone);
    }
    for n in clients {
        types.insert(*n, NodeType::Client);
    }
    for n in servers {
        types.insert(*n, NodeType::Server);
    }
    types
}

fn knowing(topology: BTreeSet<(u8, u8)>, node_types: BTreeMap<u8, NodeType>) -> DronegowskiClient<Plain> {
    let mut client = DronegowskiClient::new(1, BTreeSet::new(), ClientType::WebBrowsers, 0);
    client.topology = topology;
    client.node_types = node_types;
    client
}

fn sorted(mut paths: Vec<Vec<u8>>) -> Vec<Vec<u8>> {
    paths.sort();
    paths
}

#[test]
fn the_shortest_route_is_taken() {
    let client = knowing(
        links(&[(1, 2), (2, 3), (3, 9), (1, 4), (9, 4)]),
        types(&[2, 3, 4], &[1], &[9]),
    );
    assert_eq!(client.compute_route(&9), Some(vec![1, 4, 9]));
    assert_eq!(client.compute_route(&3), Some(vec![1, 2, 3]));
    assert_eq!(client.compute_route(&1), Some(vec![1]));
    assert_eq!(client.compute_route(&8), None);
    assert_eq!(sorted(client.compute_all_routes(&9)), vec![vec![1, 2, 3, 9], vec![1, 4, 9]]);
}

#[test]
fn routes_pass_through_drones_only() {
    let topology = links(&[(1, 5), (5, 9), (1, 7), (7, 9)]);
    let client = knowing(topology.clone(), types(&[], &[1, 5], &[7, 9]));
    assert_eq!(client.compute_route(&9), None);
    assert_eq!(client.compute_route(&5), Some(vec![1, 5]));
    // trails may pass through servers, but not through clients
    assert_eq!(client.compute_all_routes(&9), vec![vec![1, 7, 9]]);
    assert_eq!(sorted(client.compute_all_routes(&5)), vec![vec![1, 5], vec![1, 7, 9, 5]]);
    // nodes of unknown type are passed by
    let client = knowing(topology, types(&[5], &[1], &[]));
    assert_eq!(client.compute_route(&9), None);
    assert!(client.compute_all_routes(&9).is_empty());
}

#[test]
fn excluded_nodes_are_kept_clear_of() {
    let topology = links(&[(1, 2), (2, 9), (1, 3), (3, 4), (4, 9)]);
    let node_types = types(&[2, 3, 4], &[1], &[9]);
    let excluding = |ids: &[u8]| {
        let excluded: BTreeSet<u8> = ids.iter().copied().collect();
        find_route(&topology, &node_types, &excluded, 1, 9)
    };
    assert_eq!(excluding(&[]), Some(vec![1, 2, 9]));
    assert_eq!(excluding(&[2]), Some(vec![1, 3, 4, 9]));
    assert_eq!(excluding(&[1, 2]), Some(vec![1, 3, 4, 9]));
    assert_eq!(excluding(&[2, 4]), None);
    assert_eq!(excluding(&[9]), None);
}

#[test]
fn the_shortest_route_is_among_the_trails() {
    let client = knowing(
        links(&[(1, 2), (2, 1), (2, 3), (3, 2), (3, 4), (4, 2), (4, 9), (3, 9), (1, 1), (255, 9), (1, 255)]),
        types(&[2, 3, 4, 255], &[1], &[9]),
    );
    let route = client.compute_route(&9).unwrap();
    assert_eq!(route, vec![1, 255, 9]);
    let trails = client.compute_all_routes(&9);
    assert!(trails.contains(&route));
    assert_eq!(
        sorted(trails),
        vec![
            vec![1, 2, 3, 4, 9],
            vec![1, 2, 3, 9],
            vec![1, 2, 4, 3, 9],
            vec![1, 2, 4, 9],
            vec![1, 255, 9],
        ]
    );
}

#[test]
fn reports_list_the_servers_in_order() {
    let client = knowing(links(&[(1, 2), (2, 9)]), types(&[2], &[1], &[9, 0, 255]));
    let report = client.route_report();
    assert_eq!(report.known_nodes, 5);
    assert_eq!(report.known_links, 2);
    assert_eq!(
        report.servers,
        vec![(0, vec![]), (9, vec![vec![1, 2, 9]]), (255, vec![])]
    );
}

#[test]
fn members_come_in_order() {
    let set: BTreeSet<u8> = [255, 0, 17, 3].into_iter().collect();
    assert_eq!(members(&set), vec![0, 3, 17, 255]);
    assert!(members(&BTreeSet::new()).is_empty());
}

#[test]
fn notices_are_worded() {
    assert_eq!(received_notice(0, 255), "Client 0: received from 255");
    assert_eq!(dropped_notice(10, 4, 100, 0), "Client 10: nack drop 4 from 100 / 0");
    let excluded: BTreeSet<u8> = [30, 2, 200].into_iter().collect();
    assert_eq!(excluded_notice(9, &excluded), "Client 9: new route exclude {2, 30, 200}");
    assert_eq!(excluded_notice(9, &BTreeSet::new()), "Client 9: new route exclude {}");
    assert_eq!(excluded_notice(9, &BTreeSet::from([7])), format!("Client 9: new route exclude {:?}", BTreeSet::from([7])));
    assert_eq!(rediscovery_notice(101), "Client 101: new route?");
    assert_eq!(no_route_error(), "not alternative path route available");
    assert_eq!(stuck_error(1234567890), "No alternative path for fragment 1234567890");
}

#[test]
fn routes_have_a_source() {
    assert_eq!(SourceRoutingHeader { hop_index: 1, hops: vec![5, 6] }.source(), Some(5));
    assert_eq!(SourceRoutingHeader { hop_index: 0, hops: vec![] }.source(), None);
}

#[test]
fn paths_go_on_from_any_start() {
    let topology = links(&[(2, 3), (3, 9), (2, 9)]);
    let node_types = types(&[2, 3], &[], &[9]);
    // 7 is not linked to 2, and 2 comes twice
    let mut path = vec![2, 7, 2];
    let mut paths = vec![vec![0]];
    find_paths_recursive(&topology, &node_types, 9, &mut path, &mut paths);
    assert_eq!(path, vec![2, 7, 2]);
    assert_eq!(paths[0], vec![0]);
    assert_eq!(sorted(paths[1..].to_vec()), vec![vec![2, 7, 2, 3, 9], vec![2, 7, 2, 9]]);
    // a node that the start has passed is not entered again
    let mut path = vec![3, 2];
    let mut paths = vec![];
    find_paths_recursive(&topology, &node_types, 9, &mut path, &mut paths);
    assert_eq!(paths, vec![vec![3, 2, 9]]);
    // a start that ends at the target is the only path
    let mut path = vec![9, 9];
    let mut paths = vec![];
    find_paths_recursive(&topology, &node_types, 9, &mut path, &mut paths);
    assert_eq!(paths, vec![vec![9, 9]]);
}
