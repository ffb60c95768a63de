use avalon::clients::{
    fetch_chunk_result, node_uri, plan_fetch, plan_fetch_from, remove_node_result, ClusterData,
    ConnectAction, ConnectEvent, FetchChunkRequest, FetchChunkResponse, Reload, ReloadAction,
    ReloadEvent, RemoveTarget,
};
use avalon::cluster::{empty_cluster, GetClusterResponse, GetClusterResponseNode};
use avalon::endpoint::{parse_endpoints, AvalonEndpoint};
use avalon::hash::{AvalonClusterAndHasher, Indicator};
use avalon::status::{Code, Status};
use std::sync::Arc;

fn endpoints(text: &str) -> Vec<AvalonEndpoint> {
    parse_endpoints(text).unwrap()
}

fn node(id: u32, host: &str, up: bool) -> GetClusterResponseNode {
    GetClusterResponseNode { id, host: host.to_string(), port: 9090, up }
}

fn answer(source_node_id: u32, nodes: Vec<GetClusterResponseNode>) -> GetClusterResponse {
    GetClusterResponse {
        cluster_id_hi: 0,
        cluster_id_lo: 1,
        client_chunk_size: 4096,
        source_node_id,
        nodes,
    }
}

fn asked(action: ReloadAction) -> String {
    match action {
        ReloadAction::Ask { addr } => addr,
        _ => panic!("an endpoint is asked"),
    }
}

fn failed(action: ReloadAction) -> Status {
    match action {
        ReloadAction::Failed { status } => status,
        _ => panic!("the search failed"),
    }
}

fn known(response: GetClusterResponse) -> ClusterData<&'static str> {
    let mut data = ClusterData::new(endpoints("a:1"));
    let mut reload = Reload::new();
    asked(data.reload_cluster(&mut reload, ReloadEvent::Started));
    match data.reload_cluster(&mut reload, ReloadEvent::Answered { response, client: "source" }) {
        ReloadAction::Done => data,
        _ => panic!("the cluster is known"),
    }
}

#[test]
fn a_search_asks_each_endpoint_once_in_a_circle() {
    let mut data: ClusterData<()> = ClusterData::new(endpoints("a:1,b:2,c:3"));
    assert_eq!(0, data.next_bootstrap_endpoint());
    let mut reload = Reload::new();
    assert_eq!("b:2", asked(data.reload_cluster(&mut reload, ReloadEvent::Started)));
    assert_eq!("c:3", asked(data.reload_cluster(&mut reload, ReloadEvent::NotConnected)));
    assert_eq!("a:1", asked(data.reload_cluster(&mut reload, ReloadEvent::NotAnswered)));
    let status = failed(data.reload_cluster(&mut reload, ReloadEvent::NotConnected));
    assert_eq!(Code::Unavailable, status.code);
    assert_eq!(
        "Unable to connect to any of the bootstrap endpoints in a:1,b:2,c:3",
        status.message
    );
    assert!(data.cluster().is_none());
    // The next search goes on where the last one began.
    let mut reload = Reload::new();
    assert_eq!("b:2", asked(data.reload_cluster(&mut reload, ReloadEvent::Started)));
}

#[test]
fn without_endpoints_a_search_fails_at_once() {
    let mut data: ClusterData<()> = ClusterData::new(vec![]);
    let status = failed(data.reload_cluster(&mut Reload::new(), ReloadEvent::Started));
    assert_eq!(
        "Unable to connect to any of the bootstrap endpoints in ",
        status.message
    );
}

#[test]
fn an_answer_makes_the_cluster_known() {
    let data = known(answer(2, vec![node(1, "x", false), node(2, "y", true)]));
    let cluster = data.cluster().unwrap();
    assert_eq!(2, cluster.inner.source_node_id);
    assert_eq!(
        Some(2),
        cluster.lookup(&Indicator { prefix: "p", path: "q", offset: 0 })
    );
    assert_eq!(Some(&"source"), data.client(2));
    assert_eq!(None, data.client(1));
}

#[test]
fn an_answer_that_tells_of_no_cluster_ends_the_search() {
    let mut data = ClusterData::new(endpoints("a:1,b:2"));
    let mut reload = Reload::new();
    asked(data.reload_cluster(&mut reload, ReloadEvent::Started));
    let status = failed(data.reload_cluster(
        &mut reload,
        ReloadEvent::Answered { response: answer(9, vec![node(1, "x", true)]), client: () },
    ));
    assert_eq!(Code::Unknown, status.code);
    assert_eq!(
        "Server a:1 returned a GetClusterRequest that could not be parsed: \
         Source node id was 9, but that node was not found in the response nodes.",
        status.message
    );
    assert!(data.cluster().is_none());
}

#[test]
fn a_cluster_with_too_many_servers_ends_the_search() {
    let mut data = ClusterData::new(endpoints("a:1"));
    let mut reload = Reload::new();
    asked(data.reload_cluster(&mut reload, ReloadEvent::Started));
    let status = failed(data.reload_cluster(
        &mut reload,
        ReloadEvent::Answered { response: answer(70000, vec![node(70000, "x", true)]), client: () },
    ));
    assert_eq!(Code::Unknown, status.code);
    assert_eq!(
        "AvalonClusterAndHasher::new failed: The number of servers cannot be more than 65534.",
        status.message
    );
}

#[test]
fn nodes_are_connected_by_their_endpoints() {
    let mut data = known(answer(2, vec![node(1, "x", true), node(2, "y", true)]));
    match data.reload_node_client(1, ConnectEvent::Started) {
        ConnectAction::Connect { addr } => assert_eq!("x:9090", addr),
        _ => panic!("the node is connected"),
    }
    match data.reload_node_client(
        1,
        ConnectEvent::NotConnected { error: "refused".to_string() },
    ) {
        ConnectAction::Failed { status } => {
            assert_eq!(Code::Unavailable, status.code);
            assert_eq!("Unable to connect to x:9090: refused", status.message);
        }
        _ => panic!("there is no connection"),
    }
    assert_eq!(None, data.client(1));
    match data.reload_node_client(1, ConnectEvent::Connected { client: "one" }) {
        ConnectAction::Done => {}
        _ => panic!("there is a connection"),
    }
    assert_eq!(Some(&"one"), data.client(1));
    assert_eq!(Some(&"source"), data.client(2));
    match data.reload_node_client(3, ConnectEvent::Started) {
        ConnectAction::Failed { status } => {
            assert_eq!(Code::Unknown, status.code);
            assert_eq!("No node in the cluster was found with id 3.", status.message);
        }
        _ => panic!("there is no such node"),
    }
}

#[test]
fn a_removal_is_told_to_a_connected_node() {
    let data = known(answer(2, vec![node(1, "x", true), node(2, "y", true)]));
    match data.remove_target() {
        RemoveTarget::Client { client } => assert_eq!(&"source", client),
        _ => panic!("a node is connected"),
    }
}

#[test]
fn failures_are_told_with_their_code() {
    let failure = Status { code: Code::NotFound, message: "gone".to_string() };
    assert_eq!(
        Err(Status { code: Code::NotFound, message: "error removing node 4: gone".to_string() }),
        remove_node_result(Err(failure.clone()), 4)
    );
    assert_eq!(Ok(()), remove_node_result(Ok(()), 4));
    let status = fetch_chunk_result(Err(failure), "x:1", 77).unwrap_err();
    assert_eq!(Code::NotFound, status.code);
    assert_eq!(
        "Server x:1 returned error for FetchChunkRequest at offset 77: gone",
        status.message
    );
    let response = FetchChunkResponse { payload: vec![1, 2], object_size: 9, object_mtime: 8 };
    let result = fetch_chunk_result(Ok(response), "x:1", 77).unwrap();
    assert_eq!(vec![1, 2], result.data);
    assert_eq!(9, result.object_size);
    assert_eq!(8, result.object_mtime);
    assert_eq!(77, result.offset);
}

#[test]
fn a_fetch_asks_the_holder_for_bytes_of_one_chunk() {
    let data = known(answer(1, vec![node(0, "x", true), node(1, "y", true)]));
    let cluster = data.cluster().unwrap();
    for (range, length) in [
        (0..0, 0u32),
        (0..10, 10),
        (0..u64::MAX, 4096),
        (5000..u64::MAX, 3192),
        (8191..9000, 1),
        (8192..9000, 808),
    ] {
        let start = range.start;
        let plan = plan_fetch(cluster, "p", "q", range).unwrap();
        let offset = start / 4096 * 4096;
        assert_eq!(
            cluster.lookup(&Indicator { prefix: "p", path: "q", offset }),
            Some(plan.node_id)
        );
        assert_eq!(
            FetchChunkRequest {
                prefix: "p".to_string(),
                path: "q".to_string(),
                offset: start,
                length
            },
            plan.request
        );
    }
}

#[test]
fn bytes_of_one_chunk_are_asked_of_one_node() {
    let data = known(answer(1, vec![node(0, "x", true), node(1, "y", true), node(5, "z", true)]));
    let cluster = data.cluster().unwrap();
    for chunk in 0..50u64 {
        let start = chunk * 4096;
        let first = plan_fetch(cluster, "p", "q", start..u64::MAX).unwrap().node_id;
        for offset in [start + 1, start + 2048, start + 4095] {
            assert_eq!(first, plan_fetch(cluster, "p", "q", offset..u64::MAX).unwrap().node_id);
        }
    }
}

#[test]
fn a_known_cluster_is_kept() {
    let mut data = ClusterData::new(endpoints("a:1,b:2"));
    let mut reload = Reload::new();
    assert_eq!("a:1", asked(data.get_cluster(&mut reload, ReloadEvent::Started)));
    let first = answer(1, vec![node(1, "x", true)]);
    let event = ReloadEvent::Answered { response: first, client: "first" };
    assert!(matches!(data.get_cluster(&mut reload, event), ReloadAction::Done));
    let known = data.cluster().unwrap().clone();
    let mut again = Reload::new();
    assert!(matches!(data.get_cluster(&mut again, ReloadEvent::Started), ReloadAction::Done));
    let other = answer(2, vec![node(2, "y", true)]);
    let event = ReloadEvent::Answered { response: other, client: "other" };
    assert!(matches!(data.get_cluster(&mut again, event), ReloadAction::Done));
    let error = "refused".to_string();
    data.reload_node_client(1, ConnectEvent::NotConnected { error });
    assert!(Arc::ptr_eq(&known, data.cluster().unwrap()));
    assert_eq!(Some(&"first"), data.client(1));
    assert_eq!(None, data.client(2));
}

#[test]
fn a_held_connection_is_kept() {
    let mut data = known(answer(1, vec![node(1, "x", true), node(2, "y", true)]));
    assert!(matches!(data.node_client(1, ConnectEvent::Started), ConnectAction::Done));
    match data.node_client(2, ConnectEvent::Started) {
        ConnectAction::Connect { addr } => assert_eq!("y:9090", addr),
        _ => panic!("the node is connected"),
    }
    let event = ConnectEvent::Connected { client: "two" };
    assert!(matches!(data.node_client(2, event), ConnectAction::Done));
    let event = ConnectEvent::Connected { client: "other" };
    assert!(matches!(data.node_client(2, event), ConnectAction::Done));
    let event = ConnectEvent::NotConnected { error: "refused".to_string() };
    assert!(matches!(data.node_client(2, event), ConnectAction::Done));
    assert_eq!((Some(&"source"), Some(&"two")), (data.client(1), data.client(2)));
    assert!(matches!(data.node_client(3, ConnectEvent::Started), ConnectAction::Failed { .. }));
}

#[test]
fn a_failed_search_keeps_nothing() {
    let mut data: ClusterData<()> = ClusterData::new(endpoints("a:1,b:2"));
    let mut reload = Reload::new();
    asked(data.get_cluster(&mut reload, ReloadEvent::Started));
    asked(data.get_cluster(&mut reload, ReloadEvent::NotConnected));
    failed(data.get_cluster(&mut reload, ReloadEvent::NotAnswered));
    assert!(data.cluster().is_none());
    let mut reload = Reload::new();
    assert_eq!("a:1", asked(data.get_cluster(&mut reload, ReloadEvent::Started)));
    let response = answer(9, vec![node(1, "x", true)]);
    failed(data.get_cluster(&mut reload, ReloadEvent::Answered { response, client: () }));
    assert!(data.cluster().is_none());
    assert!(data.client(9).is_none());
    assert_eq!("b:2", asked(data.get_cluster(&mut Reload::new(), ReloadEvent::Started)));
}

#[test]
fn a_failed_search_leaves_a_known_cluster() {
    let mut data = known(answer(1, vec![node(1, "x", true)]));
    let mut reload = Reload::new();
    asked(data.reload_cluster(&mut reload, ReloadEvent::Started));
    failed(data.reload_cluster(&mut reload, ReloadEvent::NotConnected));
    assert_eq!(1, data.cluster().unwrap().inner.source_node_id);
    assert_eq!(Some(&"source"), data.client(1));
}

#[test]
fn a_bad_node_is_told_of_whatever_its_id() {
    let mut data = ClusterData::new(endpoints("a:1"));
    let mut reload = Reload::new();
    asked(data.reload_cluster(&mut reload, ReloadEvent::Started));
    let status = failed(data.reload_cluster(
        &mut reload,
        ReloadEvent::Answered { response: answer(1, vec![node(u32::MAX, "", true)]), client: () },
    ));
    assert_eq!(
        "Server a:1 returned a GetClusterRequest that could not be parsed: Invalid empty hostname.",
        status.message
    );
}

#[test]
fn without_servers_no_fetch_is_planned() {
    let mut cluster = empty_cluster();
    cluster.client_chunk_size = 4096;
    let status = plan_fetch_from(None, &cluster, "p", "q", 5000..6000).unwrap_err();
    assert_eq!(Code::Unavailable, status.code);
    assert_eq!("No available servers for chunk starting at 4096", status.message);
    let plan = plan_fetch_from(Some(3), &cluster, "p", "q", 5000..6000).unwrap();
    assert_eq!(3, plan.node_id);
    assert_eq!(1000, plan.request.length);
    let nobody = match AvalonClusterAndHasher::try_new(cluster) {
        Some(Ok(c)) => c,
        _ => panic!("the empty cluster has a hasher"),
    };
    let status = plan_fetch(&nobody, "p", "q", 5000..6000).unwrap_err();
    assert_eq!("No available servers for chunk starting at 4096", status.message);
}

#[test]
fn nodes_are_reached_over_http_unless_they_say_otherwise() {
    assert_eq!("http://x:1", node_uri("x:1"));
    assert_eq!("https://x:1", node_uri("https://x:1"));
}
