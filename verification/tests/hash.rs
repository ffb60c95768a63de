use avalon::cluster::{empty_cluster, AvalonCluster};
use avalon::endpoint::AvalonEndpoint;
use avalon::error::AvalonError;
use avalon::hash::{AvalonClusterAndHasher, AvalonHasher, Indicator, NUM_SLOTS};
use avalon::slots::{assign_slots, list_slots, UNASSIGNED};
use rand::distributions::{Alphanumeric, DistString};
use rand::thread_rng;
use siphasher::sip::SipHasher13;
use std::collections::{BTreeMap, BTreeSet};
use std::hash::Hasher;

fn make_fake_cluster_object(up_nodes: &[u32], down_nodes: &[u32]) -> AvalonCluster {
    let cluster_id = 0xa1a2a3a4b1b2c1c2d1d2d3d4d5d6d7d8u128;
    let source_node_id = if !up_nodes.is_empty() {
        *up_nodes.first().unwrap()
    } else if !down_nodes.is_empty() {
        *down_nodes.first().unwrap()
    } else {
        0
    };
    let mut nodes = BTreeMap::<u32, AvalonEndpoint>::new();
    let mut up = BTreeSet::<u32>::new();
    for node in up_nodes {
        nodes.insert(
            *node,
            AvalonEndpoint::new("localhost", 8080 + (node % 10) as u32).unwrap(),
        );
        up.insert(*node);
    }
    for node in down_nodes {
        nodes.insert(
            *node,
            AvalonEndpoint::new("localhost", 8080 + (node % 10) as u32).unwrap(),
        );
    }
    AvalonCluster {
        cluster_id,
        client_chunk_size: 16_384,
        source_node_id,
        nodes,
        up,
    }
}

fn cluster_and_hasher(up: &[u32], down: &[u32]) -> AvalonClusterAndHasher {
    match AvalonClusterAndHasher::try_new(make_fake_cluster_object(up, down)) {
        Some(Ok(c)) => c,
        _ => panic!("the cluster has a hasher"),
    }
}

fn hasher(servers: Vec<bool>) -> AvalonHasher {
    match AvalonHasher::try_new(servers) {
        Some(Ok(h)) => h,
        _ => panic!("the servers have a hasher"),
    }
}

fn random_string() -> String {
    Alphanumeric.sample_string(&mut thread_rng(), 16)
}

#[test]
fn test_hash_distribution() {
    let up = vec![0, 1, 2];
    let cluster = make_fake_cluster_object(&up, &vec![]);
    let cluster_and_hasher = match AvalonClusterAndHasher::new(cluster) {
        Ok(c) => c,
        Err(e) => panic!("{}", e.to_string()),
    };

    let mut results = BTreeMap::<u32, usize>::new();
    for _i in 1..1000 {
        let indicator = Indicator {
            prefix: &random_string(),
            path: &random_string(),
            offset: 0,
        };
        let node = cluster_and_hasher.lookup(&indicator).unwrap();
        results.insert(node, results.get(&node).unwrap_or(&0) + 1);
    }

    for &result in results.keys() {
        assert!(up.contains(&result));
    }
    let mut lowest = std::usize::MAX;
    let mut highest: usize = 0;
    for &result in results.values() {
        lowest = std::cmp::min(lowest, result);
        highest = std::cmp::max(highest, result);
    }
    if highest - lowest > 250 {
        panic!(
            "Expected a more even distribution of values than {:?}",
            results.values()
        );
    }
}

#[test]
fn test_single_node() {
    let up = vec![2];
    let cluster = make_fake_cluster_object(&up, &vec![]);
    let cluster_and_hasher = match AvalonClusterAndHasher::new(cluster) {
        Ok(c) => c,
        Err(e) => panic!("{}", e.to_string()),
    };
    for _i in 1..1000 {
        let indicator = Indicator {
            prefix: &random_string(),
            path: &random_string(),
            offset: 0,
        };
        assert_eq!(2, cluster_and_hasher.lookup(&indicator).unwrap());
    }
}

fn digest(key0: u64, key1: u64, pieces: &[&[u8]]) -> u64 {
    let mut h = SipHasher13::new_with_keys(key0, key1);
    for piece in pieces {
        h.write(piece);
    }
    h.finish()
}

#[test]
fn servers_list_slots_by_their_digests() {
    let n = NUM_SLOTS as u64;
    for server in [0u32, 1, 2, 255, 256, 65533] {
        let k = digest(0, 0, &[&server.to_le_bytes()]) % n;
        let l = digest(123, 456, &[&server.to_le_bytes()]) % n;
        let list = AvalonHasher::permutations_for_server(server, NUM_SLOTS);
        assert_eq!(NUM_SLOTS, list.len());
        for j in [0u64, 1, 2, 31990] {
            assert_eq!(((k + j * l) % n) as u16, list[j as usize]);
        }
        let mut sorted = list.clone();
        sorted.sort();
        assert_eq!((0..31991).collect::<Vec<u16>>(), sorted);
    }
}

#[test]
fn a_listing_steps_round_the_slots() {
    assert_eq!(vec![3, 5, 0, 2, 4, 6, 1], list_slots(10, 9, 7));
    assert_eq!(vec![2, 2, 2], list_slots(5, 3, 3));
}

#[test]
fn the_first_claim_takes_a_slot() {
    let table = vec![vec![0, 1, 2], vec![], vec![0, 2, 1]];
    // Row 0: server 0 takes slot 0. Row 1: server 0 takes slot 1, server 2 takes slot 2.
    assert_eq!((vec![0, 0, 2], 3), assign_slots(&table, 3));
    let standing = vec![vec![1, 1, 1]];
    assert_eq!((vec![UNASSIGNED, 0, UNASSIGNED], 1), assign_slots(&standing, 3));
    assert_eq!((vec![UNASSIGNED, UNASSIGNED], 0), assign_slots(&vec![vec![]], 2));
}

#[test]
fn chunks_are_looked_up_by_their_bytes() {
    let servers = vec![true, false, true, true];
    let h = hasher(servers.clone());
    let mut table = Vec::new();
    for (s, up) in servers.iter().enumerate() {
        table.push(if *up {
            AvalonHasher::permutations_for_server(s as u32, NUM_SLOTS)
        } else {
            vec![]
        });
    }
    let (slots, assigned) = assign_slots(&table, NUM_SLOTS);
    assert_eq!(NUM_SLOTS, assigned);
    for (prefix, path, offset) in [
        ("s3$bucket", "a/b", 0u64),
        ("", "", 0),
        ("p", "\u{e4}\u{1f600}", 16384),
        ("prefix that is long", "path", u64::MAX),
    ] {
        let hash = digest(
            0,
            0,
            &[prefix.as_bytes(), path.as_bytes(), &offset.to_le_bytes()],
        );
        let expected = slots[(hash % NUM_SLOTS as u64) as usize];
        assert!(servers[expected as usize]);
        assert_eq!(Some(expected), h.lookup(&Indicator { prefix, path, offset }));
        assert_eq!(Some(expected), h.lookup_hash(hash));
    }
}

#[test]
fn without_servers_nothing_is_found() {
    for servers in [vec![], vec![false], vec![false, false]] {
        let h = hasher(servers);
        assert_eq!(None, h.lookup(&Indicator { prefix: "a", path: "b", offset: 0 }));
        assert_eq!(None, h.lookup_hash(5));
    }
    let c = cluster_and_hasher(&[], &[0, 4]);
    assert_eq!(None, c.lookup(&Indicator { prefix: "a", path: "b", offset: 0 }));
    match AvalonClusterAndHasher::try_new(empty_cluster()) {
        Some(Ok(c)) => {
            assert_eq!(None, c.lookup(&Indicator { prefix: "a", path: "b", offset: 0 }))
        }
        _ => panic!("the empty cluster has a hasher"),
    }
}

#[test]
fn too_many_servers_are_refused() {
    match AvalonHasher::try_new(vec![false; 65535]) {
        Some(Err(e)) => {
            assert_eq!(AvalonError::TooManyServers, e);
            assert_eq!(
                "The number of servers cannot be more than 65534.",
                e.to_string()
            );
        }
        _ => panic!("65535 servers are too many"),
    }
    match AvalonHasher::new(vec![false; 65534]) {
        Ok(h) => assert_eq!(None, h.lookup_hash(0)),
        Err(e) => panic!("{}", e.to_string()),
    }
    match AvalonClusterAndHasher::try_new(make_fake_cluster_object(&[1], &[65534])) {
        Some(Err(e)) => assert_eq!(AvalonError::TooManyServers, e),
        _ => panic!("65535 servers are too many"),
    }
    let c = cluster_and_hasher(&[65533], &[]);
    assert_eq!(
        Some(65533),
        c.lookup(&Indicator { prefix: "a", path: "b", offset: 0 })
    );
}

#[test]
fn servers_that_go_down_move_only_their_slots() {
    let all = hasher(vec![true, true, true, true]);
    let fewer = hasher(vec![true, true, false, true]);
    let mut moved = 0;
    for slot in 0..NUM_SLOTS as u64 {
        let before = all.lookup_hash(slot).unwrap();
        let after = fewer.lookup_hash(slot).unwrap();
        if before != 2 {
            assert_eq!(before, after);
        } else {
            assert_ne!(2, after);
            moved += 1;
        }
    }
    assert!(moved > 0);
}

#[test]
fn servers_that_come_up_take_slots_for_themselves() {
    let some = hasher(vec![true, false, true]);
    let more = hasher(vec![true, true, true, true]);
    let mut taken = 0;
    for slot in 0..NUM_SLOTS as u64 {
        let before = some.lookup_hash(slot).unwrap();
        let after = more.lookup_hash(slot).unwrap();
        if after == 1 || after == 3 {
            taken += 1;
        } else {
            assert_eq!(before, after);
        }
    }
    assert!(taken > 0);
}

#[test]
fn a_hasher_is_shown_by_its_servers() {
    assert_eq!(
        "AvalonHasher{num_slots: 31991, servers: [true, false]}",
        hasher(vec![true, false]).debug_text()
    );
    assert_eq!(
        "AvalonHasher{num_slots: 0, servers: []}",
        hasher(vec![]).debug_text()
    );
}
