use avalon::cluster::{
    empty_cluster, AvalonCluster, GetClusterResponse, GetClusterResponseNode,
};
use avalon::endpoint::{parse_endpoints, unparse_endpoints, AvalonEndpoint};
use avalon::error::AvalonError;
use avalon::text::NumberError;
use std::collections::{BTreeMap, BTreeSet};
use uuid::Uuid;

#[test]
fn test_new_node_with_empty_hostname_fails() {
    assert_eq!(
        "Invalid empty hostname.",
        AvalonEndpoint::new("", 9090).unwrap_err().to_string()
    );
}

#[test]
fn test_new_node_with_overly_large_port_fails() {
    assert_eq!(
        "Invalid overly large port number 9000000.",
        AvalonEndpoint::new("example.com", 9000000)
            .unwrap_err()
            .to_string()
    );
}

#[test]
fn test_node_addr() {
    assert_eq!(
        "example.com:9090",
        AvalonEndpoint::new("example.com", 9090).unwrap().addr()
    );
}

#[test]
fn test_addr_parse() {
    assert_eq!(
        AvalonEndpoint::new("example.com", 9090).unwrap(),
        AvalonEndpoint::parse("example.com:9090").unwrap()
    );
}

#[test]
fn test_addr_parse_failure() {
    assert_eq!(
        "Unable to parse example.com as a host:port pair.",
        AvalonEndpoint::parse("example.com")
            .unwrap_err()
            .to_string()
    );
}

#[test]
fn test_single_element_node_vec_parse() {
    test_node_vec_round_trip(
        vec![AvalonEndpoint::new("local", 9090).unwrap()],
        "local:9090",
    )
    .unwrap();
}

#[test]
fn test_three_element_node_vec_parse() {
    test_node_vec_round_trip(
        vec![
            AvalonEndpoint::new("example.com", 9090).unwrap(),
            AvalonEndpoint::new("example2.com", 9091).unwrap(),
            AvalonEndpoint::new("local", 9090).unwrap(),
        ],
        "example.com:9090,example2.com:9091,local:9090",
    )
    .unwrap();
}

fn test_node_vec_round_trip(vec: Vec<AvalonEndpoint>, input: &str) -> Result<(), AvalonError> {
    assert_eq!(vec, parse_endpoints(input)?);
    assert_eq!(input, unparse_endpoints(&vec));
    Ok(())
}

#[test]
fn test_big_cluster_to_response() {
    let mut nodes = BTreeMap::<u32, AvalonEndpoint>::new();
    nodes.insert(1, AvalonEndpoint::new("localhost", 9090).unwrap());
    nodes.insert(2, AvalonEndpoint::new("localhost", 9091).unwrap());
    nodes.insert(3, AvalonEndpoint::new("localhost", 9092).unwrap());
    let mut up = BTreeSet::<u32>::new();
    up.insert(1);
    up.insert(2);
    let cluster_id = Uuid::parse_str("6ba7b810-9dad-11d1-80b4-00c04fd430c8").unwrap();
    let cluster = AvalonCluster {
        cluster_id: cluster_id.as_u128(),
        client_chunk_size: 4084,
        source_node_id: 2,
        nodes,
        up,
    };
    let response_nodes = vec![
        GetClusterResponseNode {
            id: 1 as u32,
            host: "localhost".to_string(),
            port: 9090,
            up: true,
        },
        GetClusterResponseNode {
            id: 2 as u32,
            host: "localhost".to_string(),
            port: 9091,
            up: true,
        },
        GetClusterResponseNode {
            id: 3 as u32,
            host: "localhost".to_string(),
            port: 9092,
            up: false,
        },
    ];
    let response = GetClusterResponse {
        cluster_id_hi: cluster_id.as_u64_pair().0,
        cluster_id_lo: cluster_id.as_u64_pair().1,
        client_chunk_size: 4084,
        source_node_id: 2,
        nodes: response_nodes,
    };
    test_cluster_round_trip(&cluster, response);
}

fn test_cluster_round_trip(cluster: &AvalonCluster, response: GetClusterResponse) {
    assert_eq!(response, cluster.to_response());
    assert_eq!(*cluster, AvalonCluster::from_response(&response).unwrap());
}

#[test]
fn test_parse_ip_addr_endpoints() {
    assert_eq!(
        vec![
            AvalonEndpoint::new("123.456.789.123", 9090).unwrap(),
            AvalonEndpoint::new("123.456.789.321", 9090).unwrap(),
            AvalonEndpoint::new("123.456.789.456", 9090).unwrap(),
        ],
        parse_endpoints("123.456.789.123:9090,123.456.789.321:9090,123.456.789.456:9090").unwrap()
    );
}

#[test]
fn ports_up_to_the_largest_are_accepted() {
    assert_eq!(65535, AvalonEndpoint::new("h", 65535).unwrap().port);
    assert_eq!(
        Err(AvalonError::PortTooLarge { port: 65536 }),
        AvalonEndpoint::new("h", 65536)
    );
    // The host is looked at first.
    assert_eq!(Err(AvalonError::EmptyHostname), AvalonEndpoint::new("", 65536));
}

#[test]
fn a_scheme_becomes_part_of_the_host() {
    let endpoint = AvalonEndpoint::parse("https://example.com:443").unwrap();
    assert_eq!("https://example.com", endpoint.host);
    assert_eq!(443, endpoint.port);
    assert_eq!("https://example.com:443", endpoint.to_string());
    assert_eq!(endpoint, AvalonEndpoint::parse(&endpoint.addr()).unwrap());
}

#[test]
fn a_second_scheme_is_refused() {
    let e = AvalonEndpoint::parse("a://b://c:1").unwrap_err();
    assert_eq!(
        "Unable to parse a://b://c:1: found more than one occurrence of ://",
        e.to_string()
    );
}

#[test]
fn ports_that_are_no_numbers_are_refused() {
    for (text, cause, said) in [
        ("h:", NumberError::Empty, "cannot parse integer from empty string"),
        ("h:x", NumberError::InvalidDigit, "invalid digit found in string"),
        ("h:-1", NumberError::InvalidDigit, "invalid digit found in string"),
        ("h:4294967296", NumberError::TooLarge, "number too large to fit in target type"),
    ] {
        let e = AvalonEndpoint::parse(text).unwrap_err();
        assert_eq!(
            AvalonError::BadPort { remainder: text.to_string(), cause },
            e
        );
        assert_eq!(
            format!("Unable to parse the second half of {} as a port: {}", text, said),
            e.to_string()
        );
    }
    assert_eq!(80, AvalonEndpoint::parse("h:+80").unwrap().port);
    assert_eq!(
        Err(AvalonError::PortTooLarge { port: 70000 }),
        AvalonEndpoint::parse("h:70000")
    );
    assert_eq!(Err(AvalonError::EmptyHostname), AvalonEndpoint::parse(":80"));
}

#[test]
fn the_first_bad_endpoint_of_a_list_is_told() {
    assert_eq!(
        Err(AvalonError::NotHostPort { remainder: "b".to_string() }),
        parse_endpoints("a:1,b,c")
    );
    assert_eq!(
        Err(AvalonError::NotHostPort { remainder: "".to_string() }),
        parse_endpoints("")
    );
    assert_eq!("", unparse_endpoints(&vec![]));
}

#[test]
fn hosts_that_do_not_read_back() {
    for host in ["a:b", "a,b", "a://b://c", "a://b:c"] {
        let v = vec![AvalonEndpoint::new(host, 1).unwrap()];
        assert_ne!(Ok(v.clone()), parse_endpoints(&unparse_endpoints(&v)));
    }
    // A colon before the scheme's end does no harm.
    for host in ["a:b://c", "http://", "://x"] {
        let v = vec![AvalonEndpoint::new(host, 1).unwrap()];
        assert_eq!(Ok(v.clone()), parse_endpoints(&unparse_endpoints(&v)));
    }
}

#[test]
fn plain_lists_are_written_as_they_were_read() {
    for text in ["a:1", "a:1,http://b:0,c:65535"] {
        assert_eq!(text, unparse_endpoints(&parse_endpoints(text).unwrap()));
    }
    // What was read is read back, however it was written.
    for text in ["a:+007", "a:b://c:01,d:00", "://x:1"] {
        let v = parse_endpoints(text).unwrap();
        assert_eq!(Ok(v.clone()), parse_endpoints(&unparse_endpoints(&v)));
    }
    // A port that is not in plain decimal is written in plain decimal.
    assert_eq!("a:7", unparse_endpoints(&parse_endpoints("a:+007").unwrap()));
}

fn node(id: u32, host: &str, port: u32, up: bool) -> GetClusterResponseNode {
    GetClusterResponseNode { id, host: host.to_string(), port, up }
}

fn response(source_node_id: u32, nodes: Vec<GetClusterResponseNode>) -> GetClusterResponse {
    GetClusterResponse {
        cluster_id_hi: 1,
        cluster_id_lo: 2,
        client_chunk_size: 16,
        source_node_id,
        nodes,
    }
}

#[test]
fn the_source_node_must_be_told() {
    let e = AvalonCluster::from_response(&response(7, vec![node(1, "a", 1, true)])).unwrap_err();
    assert_eq!(AvalonError::SourceNodeMissing { id: 7 }, e);
    assert_eq!(
        "Source node id was 7, but that node was not found in the response nodes.",
        e.to_string()
    );
}

#[test]
fn the_first_bad_node_is_told() {
    assert_eq!(
        Err(AvalonError::PortTooLarge { port: 65536 }),
        AvalonCluster::from_response(&response(
            7,
            vec![node(1, "a", 65536, true), node(2, "", 1, true)]
        ))
    );
}

#[test]
fn a_later_node_replaces_an_earlier_one_but_stays_up() {
    let cluster = AvalonCluster::from_response(&response(
        1,
        vec![node(1, "a", 1, true), node(1, "b", 2, false)],
    ))
    .unwrap();
    assert_eq!(1, cluster.nodes.len());
    assert_eq!("b:2", cluster.nodes[&1].addr());
    assert!(cluster.up.contains(&1));
    assert_eq!((1u128 << 64) + 2, cluster.cluster_id);
}

#[test]
fn answers_in_ascending_order_come_back() {
    let told = response(5, vec![node(2, "a", 1, false), node(5, "b", 2, true)]);
    let cluster = AvalonCluster::from_response(&told).unwrap();
    assert_eq!(told, cluster.to_response());
    let mixed = response(5, vec![node(5, "b", 2, true), node(2, "a", 1, false)]);
    let cluster = AvalonCluster::from_response(&mixed).unwrap();
    assert_eq!(told, cluster.to_response());
}

#[test]
fn offsets_are_aligned_to_chunks() {
    let mut cluster = empty_cluster();
    cluster.client_chunk_size = 4096;
    assert_eq!(0, cluster.align_offset_to_chunk_boundary(0));
    assert_eq!(0, cluster.align_offset_to_chunk_boundary(4095));
    assert_eq!(4096, cluster.align_offset_to_chunk_boundary(4096));
    assert_eq!(4096, cluster.align_offset_to_chunk_boundary(8191));
    for offset in 0..20000 {
        assert!(
            cluster.align_offset_to_chunk_boundary(offset)
                <= cluster.align_offset_to_chunk_boundary(offset + 1)
        );
    }
    cluster.client_chunk_size = 1;
    assert_eq!(u64::MAX, cluster.align_offset_to_chunk_boundary(u64::MAX));
}

#[test]
fn the_empty_cluster_is_empty() {
    let cluster = empty_cluster();
    assert_eq!(0, cluster.cluster_id);
    assert_eq!(0, cluster.client_chunk_size);
    assert_eq!(0, cluster.source_node_id);
    assert!(cluster.nodes.is_empty());
    assert!(cluster.up.is_empty());
    assert_eq!(
        Err(AvalonError::SourceNodeMissing { id: 0 }),
        AvalonCluster::from_response(&cluster.to_response())
    );
}
