//! Which node to ask, what to ask it, and what to make of its answer.

use crate::cluster::{
    chunk_start, cluster_told, law_aligned_offset, law_chunk_shares_start, AvalonCluster,
    ClusterView, GetClusterResponse,
};
use crate::endpoint::{
    endpoint_text, endpoint_views, endpoints_text, unparse_endpoints, AvalonEndpoint, EndpointView,
};
use crate::error::{error_text, AvalonErrorView};
use crate::hash::{
    any_up, chunk_hash, covers, holds, law_one_holder, server_bits, slot_of,
    AvalonClusterAndHasher, Indicator,
};
use crate::ordered::{first_id, lemma_ids_ordered};
use crate::slots::UNASSIGNED;
use crate::status::{Code, Status, StatusView};
use crate::text::{chars_of, decimal, find, find_from, push_decimal};
use core::ops::Range;
use std::collections::HashMap;
use std::sync::Arc;
use vstd::prelude::*;
use vstd::std_specs::iter::IteratorSpec;

verus! {

/// Bytes of an object, as a node gave them.
#[derive(Debug)]
pub struct FetchChunkResult {
    pub data: Vec<u8>,
    /// Total object size.
    pub object_size: u64,
    /// Object mtime in seconds since the epoch.
    pub object_mtime: u32,
    /// The start offset of the data we fetched.
    pub offset: u64,
}

/// The question for bytes of an object.
#[derive(Clone, Debug, PartialEq)]
pub struct FetchChunkRequest {
    pub prefix: String,
    pub path: String,
    pub offset: u64,
    pub length: u32,
}

/// The answer to the question for bytes of an object.
#[derive(Clone, Debug, PartialEq)]
pub struct FetchChunkResponse {
    pub payload: Vec<u8>,
    pub object_size: u64,
    pub object_mtime: u32,
}

/// The cluster as it is known, and the connections to its nodes. A `C` is a connection.
#[verifier::reject_recursive_types(C)]
pub struct ClusterData<C> {
    bootstrap_endpoints: Vec<AvalonEndpoint>,
    next_bootstrap_endpoint: usize,
    cluster: Option<Arc<AvalonClusterAndHasher>>,
    node_clients: HashMap<u32, C>,
}

/// A search for an endpoint that tells of the cluster.
pub struct Reload {
    tries: usize,
    addr: String,
}

/// What happened in a search.
pub enum ReloadEvent<C> {
    /// The search began.
    Started,
    /// There is no connection to the endpoint.
    NotConnected,
    /// The endpoint answered with an error.
    NotAnswered,
    /// The endpoint answered over the connection.
    Answered { response: GetClusterResponse, client: C },
}

/// What to do next in a search.
pub enum ReloadAction {
    /// Ask the endpoint at this address.
    Ask { addr: String },
    /// The cluster is known.
    Done,
    /// The search failed.
    Failed { status: Status },
    /// The servers of the cluster leave slots without a server.
    SlotsUncovered,
}

/// What happened while a connection to a node was sought.
pub enum ConnectEvent<C> {
    /// The connection is sought.
    Started,
    /// There is a connection.
    Connected { client: C },
    /// There is no connection, and why.
    NotConnected { error: String },
}

/// What to do next while a connection to a node is sought.
pub enum ConnectAction {
    /// Connect to this address.
    Connect { addr: String },
    /// The connection is kept.
    Done,
    /// There is no connection to be had.
    Failed { status: Status },
}

/// Whom to tell that a node is to be removed.
pub enum RemoveTarget<'a, C> {
    /// A node with a connection.
    Client { client: &'a C },
    /// A node without one.
    Node { id: u32 },
    /// There is none.
    Failed { status: Status },
}

/// Whom to ask for bytes, and what to ask.
#[derive(Debug, PartialEq)]
pub struct FetchPlan {
    pub node_id: u32,
    pub request: FetchChunkRequest,
}

/// The status of a search in which no endpoint told of the cluster.
pub open spec fn none_answered(endpoints: Seq<EndpointView>) -> StatusView {
    StatusView {
        code: Code::Unavailable,
        message: "Unable to connect to any of the bootstrap endpoints in "@ + endpoints_text(
            endpoints,
        ),
    }
}

/// The status of a search in which an endpoint told of no cluster.
pub open spec fn bad_answer(addr: Seq<char>, e: AvalonErrorView) -> StatusView {
    StatusView {
        code: Code::Unknown,
        message: "Server "@ + addr
            + " returned a GetClusterRequest that could not be parsed: "@ + error_text(e),
    }
}

/// The status of a search in which the cluster has too many servers.
pub open spec fn bad_cluster(e: AvalonErrorView) -> StatusView {
    StatusView {
        code: Code::Unknown,
        message: "AvalonClusterAndHasher::new failed: "@ + error_text(e),
    }
}

/// The status where a node is not in the cluster.
pub open spec fn no_such_node(node_id: u32) -> StatusView {
    StatusView {
        code: Code::Unknown,
        message: "No node in the cluster was found with id "@ + decimal(node_id as nat) + "."@,
    }
}

/// The status where there is no connection to a node.
pub open spec fn no_connection(node: EndpointView, error: Seq<char>) -> StatusView {
    StatusView {
        code: Code::Unavailable,
        message: "Unable to connect to "@ + endpoint_text(node) + ": "@ + error,
    }
}

/// The status where no node is up.
pub open spec fn nobody_up() -> StatusView {
    StatusView {
        code: Code::Unavailable,
        message: "No servers were up to receive this request."@,
    }
}

/// The status where no node holds a chunk.
pub open spec fn nobody_holds(chunk: int) -> StatusView {
    StatusView {
        code: Code::Unavailable,
        message: "No available servers for chunk starting at "@ + decimal(chunk as nat),
    }
}

impl Reload {
    /// How many endpoints were tried.
    pub closed spec fn tries(&self) -> int {
        self.tries as int
    }

    /// The address that was tried last.
    pub closed spec fn addr(&self) -> Seq<char> {
        self.addr@
    }

    /// A search that has not begun.
    pub fn new() -> (r: Reload)
        ensures
            r.tries() == 0,
            r.addr() == Seq::<char>::empty(),
    {
        Reload { tries: 0, addr: String::new() }
    }
}

impl<C> ClusterData<C> {
    /// The endpoints that are asked for the cluster.
    pub closed spec fn endpoints(&self) -> Seq<EndpointView> {
        endpoint_views(self.bootstrap_endpoints@)
    }

    /// The endpoint that is asked next.
    pub closed spec fn next(&self) -> int {
        self.next_bootstrap_endpoint as int
    }

    /// The cluster, where it is known.
    pub closed spec fn known(&self) -> Option<AvalonClusterAndHasher> {
        match self.cluster {
            Some(cluster) => Some(*cluster),
            None => None,
        }
    }

    /// The connections by node.
    pub closed spec fn clients(&self) -> Map<u32, C> {
        self.node_clients@
    }

    /// The endpoint that is asked next is one of the endpoints; a known cluster has its own hasher,
    /// and its source node has a connection; without a known cluster there is no connection.
    pub open spec fn well_formed(&self) -> bool {
        &&& 0 <= self.next()
        &&& self.next() < self.endpoints().len() || (self.next() == 0 && self.endpoints().len()
            == 0)
        &&& self.known() matches Some(cluster) ==> cluster.well_formed()
            && self.clients().contains_key(cluster.inner@.source_node_id)
        &&& self.known() is None ==> self.clients() == Map::<u32, C>::empty()
    }

    /// No cluster is known, and no node connected.
    pub fn new(bootstrap_endpoints: Vec<AvalonEndpoint>) -> (r: Self)
        ensures
            r.well_formed(),
            r.endpoints() == endpoint_views(bootstrap_endpoints@),
            r.next() == 0,
            r.known() is None,
            r.clients() == Map::<u32, C>::empty(),
    {
        ClusterData {
            bootstrap_endpoints,
            next_bootstrap_endpoint: 0,
            cluster: None,
            node_clients: HashMap::new(),
        }
    }

    /// The endpoint that is asked next; the one behind it is then next, in a circle.
    pub fn next_bootstrap_endpoint(&mut self) -> (r: usize)
        requires
            old(self).well_formed(),
            old(self).endpoints().len() > 0,
        ensures
            final(self).well_formed(),
            r == old(self).next(),
            turns(*old(self), *final(self)),
    {
        let result = self.next_bootstrap_endpoint;
        let count = self.bootstrap_endpoints.len();
        assert(result < count);
        self.next_bootstrap_endpoint = (result + 1) % count;
        result
    }

    /// Takes a search one step further: to the next endpoint where the last one told nothing, each
    /// endpoint once; and to its end where an endpoint answered.
    pub fn reload_cluster(
        &mut self,
        reload: &mut Reload,
        event: ReloadEvent<C>,
    ) -> (r: ReloadAction)
        requires
            old(self).well_formed(),
            event matches ReloadEvent::Answered { response, client } ==> (cluster_told(response@)
                matches Ok(c) ==> !c.nodes.contains_key(u32::MAX)),
        ensures
            final(self).well_formed(),
            searches(*old(self), *final(self), *old(reload), *final(reload), event, r),
            old(self).known() is Some ==> final(self).known() is Some,
    {
        match event {
            ReloadEvent::Answered { response, client } => {
                let cluster = match AvalonCluster::from_response(&response) {
                    Ok(cluster) => cluster,
                    Err(e) => {
                        let mut message = String::new();
                        message.append("Server ");
                        message.append(reload.addr.as_str());
                        message.append(
                            " returned a GetClusterRequest that could not be parsed: ",
                        );
                        message.append(e.to_string().as_str());
                        let status = Status { code: Code::Unknown, message };
                        assert(status@ =~= bad_answer(old(reload).addr(), e@));
                        return ReloadAction::Failed { status };
                    },
                };
                let cluster_and_hasher = match AvalonClusterAndHasher::try_new(cluster) {
                    None => {
                        return ReloadAction::SlotsUncovered;
                    },
                    Some(Err(e)) => {
                        let mut message = String::new();
                        message.append("AvalonClusterAndHasher::new failed: ");
                        message.append(e.to_string().as_str());
                        let status = Status { code: Code::Unknown, message };
                        assert(status@ =~= bad_cluster(e@));
                        return ReloadAction::Failed { status };
                    },
                    Some(Ok(result)) => result,
                };
                let source_node_id = cluster_and_hasher.inner.source_node_id;
                self.cluster = Some(Arc::new(cluster_and_hasher));
                self.node_clients.insert(source_node_id, client);
                ReloadAction::Done
            },
            _ => {
                if reload.tries < self.bootstrap_endpoints.len() {
                    reload.tries = reload.tries + 1;
                    let node_index = self.next_bootstrap_endpoint();
                    assert(self.endpoints()[node_index as int]
                        == self.bootstrap_endpoints[node_index as int]@);
                    let addr = self.bootstrap_endpoints[node_index].addr();
                    reload.addr = addr.clone();
                    ReloadAction::Ask { addr }
                } else {
                    let mut message = String::new();
                    message.append("Unable to connect to any of the bootstrap endpoints in ");
                    message.append(unparse_endpoints(&self.bootstrap_endpoints).as_str());
                    let status = Status { code: Code::Unavailable, message };
                    assert(status@ =~= none_answered(self.endpoints()));
                    ReloadAction::Failed { status }
                }
            },
        }
    }

    /// Takes the question for the cluster one step further. A cluster that is known is the answer at
    /// once, and stays as it is; else it is searched for. After `Done` the cluster is known.
    pub fn get_cluster(
        &mut self,
        reload: &mut Reload,
        event: ReloadEvent<C>,
    ) -> (r: ReloadAction)
        requires
            old(self).well_formed(),
            old(self).known() is None ==> (event matches ReloadEvent::Answered { response, client }
                ==> (cluster_told(response@) matches Ok(c) ==> !c.nodes.contains_key(u32::MAX))),
        ensures
            final(self).well_formed(),
            gets(*old(self), *final(self), *old(reload), *final(reload), event, r),
            r is Done <==> final(self).known() is Some,
    {
        if self.cluster.is_some() {
            return ReloadAction::Done;
        }
        self.reload_cluster(reload, event)
    }

    /// The cluster, where it is known.
    pub fn cluster(&self) -> (r: Option<&Arc<AvalonClusterAndHasher>>)
        ensures
            match r {
                Some(cluster) => self.known() == Some(**cluster),
                None => self.known() is None,
            },
    {
        match &self.cluster {
            Some(cluster) => Some(cluster),
            None => None,
        }
    }

    /// The connection to a node, where there is one.
    pub fn client(&self, node_id: u32) -> (r: Option<&C>)
        ensures
            match r {
                Some(client) => self.clients().contains_key(node_id) && self.clients()[node_id]
                    == *client,
                None => !self.clients().contains_key(node_id),
            },
    {
        self.node_clients.get(&node_id)
    }

    /// Takes the question for the connection to a node one step further. A connection that is held
    /// is the answer at once, and stays as it is; else one is sought. After `Done` there is one.
    pub fn node_client(&mut self, node_id: u32, event: ConnectEvent<C>) -> (r: ConnectAction)
        requires
            old(self).well_formed(),
            old(self).known() is Some,
        ensures
            final(self).well_formed(),
            reaches(*old(self), *final(self), node_id, event, r),
            r is Done <==> final(self).clients().contains_key(node_id),
    {
        if self.client(node_id).is_some() {
            return ConnectAction::Done;
        }
        self.reload_node_client(node_id, event)
    }

    /// Takes the search for a connection to a node one step further.
    pub fn reload_node_client(&mut self, node_id: u32, event: ConnectEvent<C>) -> (r: ConnectAction)
        requires
            old(self).well_formed(),
            old(self).known() is Some,
        ensures
            final(self).well_formed(),
            connects(*old(self), *final(self), node_id, event, r),
            final(self).known() is Some,
    {
        proof {
            lemma_ids_ordered();
        }
        let cluster = self.cluster.as_ref().unwrap();
        let ghost view = cluster.inner@;
        assert(view.nodes.dom() =~= cluster.inner.nodes@.dom());
        match cluster.inner.nodes.get(&node_id) {
            None => {
                let mut message = String::new();
                message.append("No node in the cluster was found with id ");
                push_decimal(&mut message, node_id as u64);
                message.append(".");
                let status = Status { code: Code::Unknown, message };
                assert(status@ =~= no_such_node(node_id));
                ConnectAction::Failed { status }
            },
            Some(node) => {
                assert(view.nodes[node_id] == node@);
                match event {
                    ConnectEvent::Started => ConnectAction::Connect { addr: node.addr() },
                    ConnectEvent::NotConnected { error } => {
                        let mut message = String::new();
                        message.append("Unable to connect to ");
                        message.append(node.to_string().as_str());
                        message.append(": ");
                        message.append(error.as_str());
                        let status = Status { code: Code::Unavailable, message };
                        assert(status@ =~= no_connection(node@, error@));
                        ConnectAction::Failed { status }
                    },
                    ConnectEvent::Connected { client } => {
                        self.node_clients.insert(node_id, client);
                        ConnectAction::Done
                    },
                }
            },
        }
    }

    /// Whom to tell that a node is to be removed: a node with a connection where there is one, and
    /// else the first node that is up.
    pub fn remove_target(&self) -> (r: RemoveTarget<'_, C>)
        requires
            self.known() is Some,
        ensures
            match r {
                RemoveTarget::Client { client } => exists|id: u32| #[trigger]
                    self.clients().contains_key(id) && self.clients()[id] == *client,
                RemoveTarget::Node { id } => {
                    &&& self.clients().dom() =~= Set::empty()
                    &&& (self.known()->0).inner@.up.contains(id)
                    &&& forall|other: u32| #[trigger]
                        (self.known()->0).inner@.up.contains(other) ==> id <= other
                },
                RemoveTarget::Failed { status } => {
                    &&& self.clients().dom() =~= Set::empty()
                    &&& (self.known()->0).inner@.up =~= Set::empty()
                    &&& status@ == nobody_up()
                },
            },
            self.well_formed() ==> r is Client,
    {
        let values = self.node_clients.values();
        let ghost all = values.remaining();
        for client in it: values
            invariant
                it.seq() == all,
                self.node_clients@.values() == all.unref().to_set(),
                it.index() == 0,
        {
            proof {
                assert(all.unref()[0] == *client);
                assert(all.unref().to_set().contains(*client));
                assert(self.node_clients@.values().contains(*client));
                let id = choose|id: u32| #[trigger]
                    self.node_clients@.dom().contains(id) && self.node_clients@[id] == *client;
                assert(self.clients().contains_key(id) && self.clients()[id] == *client);
            }
            return RemoveTarget::Client { client };
        }
        proof {
            assert(self.clients().dom() =~= Set::empty());
        }
        let cluster = self.cluster.as_ref().unwrap();
        match first_id(&cluster.inner.up) {
            Some(id) => RemoveTarget::Node { id },
            None => {
                let mut message = String::new();
                message.append("No servers were up to receive this request.");
                let status = Status { code: Code::Unavailable, message };
                assert(status@ =~= nobody_up());
                RemoveTarget::Failed { status }
            },
        }
    }
}

/// The endpoint behind the next one becomes the next, in a circle.
pub open spec fn turns<C>(before: ClusterData<C>, after: ClusterData<C>) -> bool {
    &&& after.next() == (before.next() + 1) % before.endpoints().len() as int
    &&& after.endpoints() == before.endpoints()
    &&& after.known() == before.known()
    &&& after.clients() == before.clients()
}

/// A step of a search.
pub open spec fn searches<C>(
    before: ClusterData<C>,
    after: ClusterData<C>,
    reload_before: Reload,
    reload_after: Reload,
    event: ReloadEvent<C>,
    r: ReloadAction,
) -> bool {
    &&& after.endpoints() == before.endpoints()
    &&& match event {
        ReloadEvent::Answered { response, client } => {
            &&& after.next() == before.next()
            &&& reload_after == reload_before
            &&& match cluster_told(response@) {
                Err(e) => {
                    &&& r matches ReloadAction::Failed { status } && status@ == bad_answer(
                        reload_before.addr(),
                        e,
                    )
                    &&& after.known() == before.known()
                    &&& after.clients() == before.clients()
                },
                Ok(c) => learns(before, after, c, client, r),
            }
        },
        _ => asks_next(before, after, reload_before, reload_after, r),
    }
}

/// A step of the question for the cluster.
pub open spec fn gets<C>(
    before: ClusterData<C>,
    after: ClusterData<C>,
    reload_before: Reload,
    reload_after: Reload,
    event: ReloadEvent<C>,
    r: ReloadAction,
) -> bool {
    if before.known() is Some {
        &&& r is Done
        &&& after == before
        &&& reload_after == reload_before
    } else {
        searches(before, after, reload_before, reload_after, event, r)
    }
}

/// The step of a search that goes to the next endpoint, or ends where each was tried.
pub open spec fn asks_next<C>(
    before: ClusterData<C>,
    after: ClusterData<C>,
    reload_before: Reload,
    reload_after: Reload,
    r: ReloadAction,
) -> bool {
    &&& after.known() == before.known()
    &&& after.clients() == before.clients()
    &&& if reload_before.tries() < before.endpoints().len() {
        &&& r matches ReloadAction::Ask { addr } && addr@ == reload_after.addr()
        &&& reload_after.addr() == endpoint_text(before.endpoints()[before.next()])
        &&& reload_after.tries() == reload_before.tries() + 1
        &&& after.next() == (before.next() + 1) % before.endpoints().len() as int
    } else {
        &&& r matches ReloadAction::Failed { status } && status@ == none_answered(
            before.endpoints(),
        )
        &&& reload_after == reload_before
        &&& after.next() == before.next()
    }
}

/// The step of a search that learns of the cluster `c` over the connection `client`.
pub open spec fn learns<C>(
    before: ClusterData<C>,
    after: ClusterData<C>,
    c: ClusterView,
    client: C,
    r: ReloadAction,
) -> bool {
    let servers = server_bits(c);
    if servers.len() >= UNASSIGNED {
        &&& r matches ReloadAction::Failed { status } && status@ == bad_cluster(
            AvalonErrorView::TooManyServers,
        )
        &&& after.known() == before.known()
        &&& after.clients() == before.clients()
    } else if any_up(servers) && !covers(servers) {
        &&& r is SlotsUncovered
        &&& after.known() == before.known()
        &&& after.clients() == before.clients()
    } else {
        &&& r is Done
        &&& after.known() matches Some(cluster) && cluster.inner@ == c
        &&& after.clients() == before.clients().insert(c.source_node_id, client)
    }
}

/// A step of the search for a connection to a node.
pub open spec fn connects<C>(
    before: ClusterData<C>,
    after: ClusterData<C>,
    node_id: u32,
    event: ConnectEvent<C>,
    r: ConnectAction,
) -> bool {
    let nodes = (before.known()->0).inner@.nodes;
    &&& after.endpoints() == before.endpoints()
    &&& after.next() == before.next()
    &&& after.known() == before.known()
    &&& if !nodes.contains_key(node_id) {
        &&& r matches ConnectAction::Failed { status } && status@ == no_such_node(node_id)
        &&& after.clients() == before.clients()
    } else {
        match event {
            ConnectEvent::Started => {
                &&& r matches ConnectAction::Connect { addr } && addr@ == endpoint_text(
                    nodes[node_id],
                )
                &&& after.clients() == before.clients()
            },
            ConnectEvent::NotConnected { error } => {
                &&& r matches ConnectAction::Failed { status } && status@ == no_connection(
                    nodes[node_id],
                    error@,
                )
                &&& after.clients() == before.clients()
            },
            ConnectEvent::Connected { client } => {
                &&& r is Done
                &&& after.clients() == before.clients().insert(node_id, client)
            },
        }
    }
}

/// A step of the question for the connection to a node.
pub open spec fn reaches<C>(
    before: ClusterData<C>,
    after: ClusterData<C>,
    node_id: u32,
    event: ConnectEvent<C>,
    r: ConnectAction,
) -> bool {
    if before.clients().contains_key(node_id) {
        &&& r is Done
        &&& after == before
    } else {
        connects(before, after, node_id, event, r)
    }
}

/// The endpoint that is asked in the try with this number, from 0 on, where `first` is asked first.
pub open spec fn asked_in(first: int, count: int, tries: nat) -> int
    decreases tries,
{
    if tries == 0 {
        first
    } else {
        (asked_in(first, count, (tries - 1) as nat) + 1) % count
    }
}

/// Endpoint `e` is asked in one of the first `count` tries.
pub open spec fn is_asked(first: int, count: int, e: int) -> bool {
    exists|i: nat| i < count && #[trigger] asked_in(first, count, i) == e
}

/// The tries go round the endpoints in a circle.
pub proof fn law_tries_go_round(first: int, count: int, tries: nat)
    requires
        0 <= first < count,
    ensures
        asked_in(first, count, tries) == (first + tries) % count,
    decreases tries,
{
    if tries == 0 {
        vstd::arithmetic::div_mod::lemma_small_mod(first as nat, count as nat);
    } else {
        law_tries_go_round(first, count, (tries - 1) as nat);
        vstd::arithmetic::div_mod::lemma_add_mod_noop(first + tries - 1, 1, count);
        vstd::arithmetic::div_mod::lemma_add_mod_noop((first + tries - 1) % count, 1, count);
        vstd::arithmetic::div_mod::lemma_mod_twice(first + tries - 1, count);
    }
}

/// A search that no endpoint ends asks each endpoint exactly once, and leaves as next the one that
/// it began with.
pub proof fn law_search_asks_each_once(first: int, count: int)
    requires
        0 <= first < count,
    ensures
        forall|i: nat, j: nat|
            i < j < count ==> #[trigger] asked_in(first, count, i) != #[trigger] asked_in(
                first,
                count,
                j,
            ),
        forall|e: int| 0 <= e < count ==> #[trigger] is_asked(first, count, e),
        asked_in(first, count, count as nat) == first,
{
    assert forall|i: nat, j: nat| i < j < count implies #[trigger] asked_in(first, count, i)
        != #[trigger] asked_in(first, count, j) by {
        law_tries_go_round(first, count, i);
        law_tries_go_round(first, count, j);
        lemma_circle(first, count, i as int);
        lemma_circle(first, count, j as int);
    }
    assert forall|e: int| 0 <= e < count implies #[trigger] is_asked(first, count, e) by {
        let i = if e >= first {
            e - first
        } else {
            e - first + count
        };
        law_tries_go_round(first, count, i as nat);
        lemma_circle(first, count, i);
        assert(asked_in(first, count, i as nat) == e);
    }
    law_tries_go_round(first, count, count as nat);
    lemma_circle(first, count, count);
}

/// In a search that began with `first`, each try asks the endpoint whose turn it is.
pub proof fn law_search_goes_round<C>(
    before: ClusterData<C>,
    after: ClusterData<C>,
    reload_before: Reload,
    reload_after: Reload,
    r: ReloadAction,
    first: int,
)
    requires
        asks_next(before, after, reload_before, reload_after, r),
        0 <= reload_before.tries() < before.endpoints().len(),
        before.next() == asked_in(
            first,
            before.endpoints().len() as int,
            reload_before.tries() as nat,
        ),
    ensures
        r matches ReloadAction::Ask { addr } && addr@ == endpoint_text(
            before.endpoints()[asked_in(
                first,
                before.endpoints().len() as int,
                reload_before.tries() as nat,
            )],
        ),
        after.next() == asked_in(
            first,
            before.endpoints().len() as int,
            reload_after.tries() as nat,
        ),
{
}

/// A call takes the data from `before` to `after`: it is a step of the question for the cluster, or
/// of the question for the connection to a node of a known cluster.
pub open spec fn call_step<C>(before: ClusterData<C>, after: ClusterData<C>) -> bool {
    ||| exists|rb: Reload, ra: Reload, event: ReloadEvent<C>, r: ReloadAction| #[trigger]
        gets(before, after, rb, ra, event, r)
    ||| exists|node_id: u32, event: ConnectEvent<C>, r: ConnectAction|
        before.known() is Some && #[trigger] reaches(before, after, node_id, event, r)
}

/// Anything that changes the data takes it from `before` to `after`: it is a step of a call or of a
/// search, or another endpoint's turn.
pub open spec fn any_step<C>(before: ClusterData<C>, after: ClusterData<C>) -> bool {
    ||| call_step(before, after)
    ||| turns(before, after)
    ||| exists|node_id: u32, event: ConnectEvent<C>, r: ConnectAction|
        before.known() is Some && #[trigger] connects(before, after, node_id, event, r)
    ||| exists|rb: Reload, ra: Reload, event: ReloadEvent<C>, r: ReloadAction| #[trigger]
        searches(before, after, rb, ra, event, r)
}

/// Once a cluster is known, it is the same cluster after any number of calls, failed or not; and
/// the question for the cluster is then answered with it, and asks no endpoint.
pub proof fn law_known_cluster_is_kept<C>(history: Seq<ClusterData<C>>, i: int, j: int)
    requires
        forall|k: int|
            0 <= k < history.len() - 1 ==> call_step(#[trigger] history[k], history[k + 1]),
        0 <= i <= j < history.len(),
        history[i].known() is Some,
    ensures
        history[j].known() == history[i].known(),
        forall|after: ClusterData<C>, rb: Reload, ra: Reload, event: ReloadEvent<C>, r: ReloadAction|
            #[trigger] gets(history[j], after, rb, ra, event, r) ==> r is Done && after
                == history[j],
    decreases j - i,
{
    if i < j {
        law_known_cluster_is_kept(history, i, j - 1);
        assert(call_step(history[j - 1], history[j - 1 + 1]));
    }
}

/// A cluster once known stays known, also where it is searched for anew: a search that fails leaves
/// the cluster as it was.
pub proof fn law_known_cluster_stays_known<C>(history: Seq<ClusterData<C>>, i: int, j: int)
    requires
        forall|k: int|
            0 <= k < history.len() - 1 ==> any_step(#[trigger] history[k], history[k + 1]),
        0 <= i <= j < history.len(),
        history[i].known() is Some,
    ensures
        history[j].known() is Some,
    decreases j - i,
{
    if i < j {
        law_known_cluster_stays_known(history, i, j - 1);
        assert(any_step(history[j - 1], history[j - 1 + 1]));
    }
}

/// A connection once held is the same connection after any number of calls, failed or not; and the
/// question for it is then answered with it, and makes no other.
pub proof fn law_held_connection_is_kept<C>(
    history: Seq<ClusterData<C>>,
    i: int,
    j: int,
    node_id: u32,
)
    requires
        forall|k: int| 0 <= k < history.len() ==> (#[trigger] history[k]).well_formed(),
        forall|k: int|
            0 <= k < history.len() - 1 ==> call_step(#[trigger] history[k], history[k + 1]),
        0 <= i <= j < history.len(),
        history[i].clients().contains_key(node_id),
    ensures
        history[j].clients().contains_key(node_id),
        history[j].clients()[node_id] == history[i].clients()[node_id],
        forall|after: ClusterData<C>, event: ConnectEvent<C>, r: ConnectAction| #[trigger]
            reaches(history[j], after, node_id, event, r) ==> r is Done && after == history[j],
    decreases j - i,
{
    if i < j {
        law_held_connection_is_kept(history, i, j - 1, node_id);
        assert(history[j - 1].well_formed());
        assert(call_step(history[j - 1], history[j - 1 + 1]));
    }
}

/// A search that fails keeps nothing: the cluster stays unknown, the connections stay as they were,
/// and the next question for the cluster asks the endpoint that is then next.
pub proof fn law_failed_search_keeps_nothing<C>(
    before: ClusterData<C>,
    failed: ClusterData<C>,
    after: ClusterData<C>,
    reload_before: Reload,
    reload_failed: Reload,
    reload_new: Reload,
    reload_after: Reload,
    event: ReloadEvent<C>,
    r: ReloadAction,
    next: ReloadAction,
)
    requires
        before.known() is None,
        gets(before, failed, reload_before, reload_failed, event, r),
        r is Failed || r is SlotsUncovered,
        reload_new.tries() == 0,
        before.endpoints().len() > 0,
        gets(failed, after, reload_new, reload_after, ReloadEvent::Started, next),
    ensures
        failed.known() is None,
        failed.clients() == before.clients(),
        failed.next() == before.next(),
        next matches ReloadAction::Ask { addr } && addr@ == endpoint_text(
            failed.endpoints()[failed.next()],
        ),
{
}

/// Where one comes to after at most one round.
proof fn lemma_circle(first: int, count: int, i: int)
    requires
        0 <= first < count,
        0 <= i <= count,
    ensures
        (first + i) % count == if first + i < count {
            first + i
        } else {
            first + i - count
        },
{
    if first + i < count {
        vstd::arithmetic::div_mod::lemma_small_mod((first + i) as nat, count as nat);
    } else {
        vstd::arithmetic::div_mod::lemma_mod_add_multiples_vanish(first + i - count, count);
        vstd::arithmetic::div_mod::lemma_small_mod((first + i - count) as nat, count as nat);
    }
}

/// How many bytes are asked for at once: up to the end of the range, and not beyond the chunk.
pub open spec fn fetch_length(start: int, end: int, chunk_size: int) -> int {
    let chunk_end = chunk_start(start, chunk_size) + chunk_size;
    (if end <= chunk_end {
        end
    } else {
        chunk_end
    }) - start
}

/// A request stays in the range and in one chunk, asks for no more than a chunk, and asks for
/// something where the range holds something.
pub proof fn law_fetch_stays_in_chunk(start: int, end: int, chunk_size: int)
    requires
        0 <= start <= end,
        0 < chunk_size,
    ensures
        0 <= fetch_length(start, end, chunk_size) <= chunk_size,
        start + fetch_length(start, end, chunk_size) <= end,
        start < end ==> fetch_length(start, end, chunk_size) > 0,
        forall|offset: int|
            start <= offset < start + fetch_length(start, end, chunk_size) ==> #[trigger]
            chunk_start(offset, chunk_size) == chunk_start(start, chunk_size),
{
    law_aligned_offset(start, chunk_size);
    assert forall|offset: int|
        start <= offset < start + fetch_length(start, end, chunk_size) implies #[trigger]
    chunk_start(offset, chunk_size) == chunk_start(start, chunk_size) by {
        law_chunk_shares_start(start, chunk_size, offset);
    }
}

/// Bytes of one chunk are asked of one node.
pub proof fn law_chunk_has_one_node(
    servers: Seq<bool>,
    prefix: Seq<char>,
    path: Seq<char>,
    chunk_size: int,
    offset: int,
    other: int,
    s1: int,
    s2: int,
)
    requires
        0 <= offset,
        0 < chunk_size,
        chunk_start(offset, chunk_size) <= other < chunk_start(offset, chunk_size) + chunk_size,
        holds(
            servers,
            s1,
            slot_of(chunk_hash(prefix, path, chunk_start(offset, chunk_size) as u64)),
        ),
        holds(
            servers,
            s2,
            slot_of(chunk_hash(prefix, path, chunk_start(other, chunk_size) as u64)),
        ),
    ensures
        s1 == s2,
{
    law_chunk_shares_start(offset, chunk_size, other);
    law_one_holder(
        servers,
        s1,
        s2,
        slot_of(chunk_hash(prefix, path, chunk_start(offset, chunk_size) as u64)),
    );
}

/// The requests that are asked of a node: the bytes from `start` on, with this length.
pub open spec fn asks_for(
    request: FetchChunkRequest,
    prefix: Seq<char>,
    path: Seq<char>,
    start: u64,
    length: int,
) -> bool {
    &&& request.prefix@ == prefix
    &&& request.path@ == path
    &&& request.offset == start
    &&& request.length == length
}

/// Whom to ask for the bytes at the front of a range, and what to ask.
pub fn plan_fetch(
    cluster: &AvalonClusterAndHasher,
    prefix: &str,
    path: &str,
    range: Range<u64>,
) -> (r: Result<FetchPlan, Status>)
    requires
        cluster.inner.client_chunk_size > 0,
        any_up(cluster.hasher.servers()) ==> {
            &&& range.start <= range.end
            &&& chunk_start(range.start as int, cluster.inner.client_chunk_size as int)
                + cluster.inner.client_chunk_size <= u64::MAX
        },
    ensures
        r is Err <==> !any_up(cluster.hasher.servers()),
        ({
            let size = cluster.inner.client_chunk_size as int;
            let chunk = chunk_start(range.start as int, size);
            match r {
                Ok(plan) => {
                    &&& holds(
                        cluster.hasher.servers(),
                        plan.node_id as int,
                        slot_of(chunk_hash(prefix@, path@, chunk as u64)),
                    )
                    &&& cluster.well_formed() ==> cluster.inner@.up.contains(plan.node_id)
                    &&& asks_for(
                        plan.request,
                        prefix@,
                        path@,
                        range.start,
                        fetch_length(range.start as int, range.end as int, size),
                    )
                },
                Err(status) => status@ == nobody_holds(chunk),
            }
        }),
{
    let chunk = cluster.inner.align_offset_to_chunk_boundary(range.start);
    let indicator = Indicator { prefix, path, offset: chunk };
    plan_fetch_from(cluster.lookup(&indicator), &cluster.inner, prefix, path, range)
}

/// What to ask the node that holds the bytes at the front of a range, where there is one.
pub fn plan_fetch_from(
    node: Option<u32>,
    cluster: &AvalonCluster,
    prefix: &str,
    path: &str,
    range: Range<u64>,
) -> (r: Result<FetchPlan, Status>)
    requires
        cluster.client_chunk_size > 0,
        node is Some ==> {
            &&& range.start <= range.end
            &&& chunk_start(range.start as int, cluster.client_chunk_size as int)
                + cluster.client_chunk_size <= u64::MAX
        },
    ensures
        match node {
            Some(node_id) => {
                &&& r matches Ok(plan) && plan.node_id == node_id && asks_for(
                    plan.request,
                    prefix@,
                    path@,
                    range.start,
                    fetch_length(
                        range.start as int,
                        range.end as int,
                        cluster.client_chunk_size as int,
                    ),
                )
            },
            None => r matches Err(status) && status@ == nobody_holds(
                chunk_start(range.start as int, cluster.client_chunk_size as int),
            ),
        },
{
    let chunk: u64 = cluster.align_offset_to_chunk_boundary(range.start);
    match node {
        None => {
            let mut message = String::new();
            message.append("No available servers for chunk starting at ");
            push_decimal(&mut message, chunk);
            let status = Status { code: Code::Unavailable, message };
            assert(status@ =~= nobody_holds(chunk as int));
            Err(status)
        },
        Some(node_id) => {
            proof {
                law_fetch_stays_in_chunk(
                    range.start as int,
                    range.end as int,
                    cluster.client_chunk_size as int,
                );
            }
            let chunk_end: u64 = chunk + cluster.client_chunk_size as u64;
            let end: u64 = if range.end <= chunk_end {
                range.end
            } else {
                chunk_end
            };
            let length: u32 = (end - range.start) as u32;
            let request = FetchChunkRequest {
                prefix: prefix.to_string(),
                path: path.to_string(),
                offset: range.start,
                length,
            };
            Ok(FetchPlan { node_id, request })
        },
    }
}

/// The status where a node did not give the bytes that it was asked for.
pub open spec fn fetch_failed(addr: Seq<char>, start: u64, failure: StatusView) -> StatusView {
    StatusView {
        code: failure.code,
        message: "Server "@ + addr + " returned error for FetchChunkRequest at offset "@ + decimal(
            start as nat,
        ) + ": "@ + failure.message,
    }
}

/// What to make of a node's answer to the question for the bytes from `start` on.
pub fn fetch_chunk_result(
    reply: Result<FetchChunkResponse, Status>,
    addr: &str,
    start: u64,
) -> (r: Result<FetchChunkResult, Status>)
    ensures
        match reply {
            Ok(response) => r matches Ok(result) && result.data == response.payload
                && result.object_size == response.object_size && result.object_mtime
                == response.object_mtime && result.offset == start,
            Err(failure) => r matches Err(status) && status@ == fetch_failed(
                addr@,
                start,
                failure@,
            ),
        },
{
    match reply {
        Ok(response) => Ok(
            FetchChunkResult {
                data: response.payload,
                object_size: response.object_size,
                object_mtime: response.object_mtime,
                offset: start,
            },
        ),
        Err(failure) => {
            let mut message = String::new();
            message.append("Server ");
            message.append(addr);
            message.append(" returned error for FetchChunkRequest at offset ");
            push_decimal(&mut message, start);
            message.append(": ");
            message.append(failure.message.as_str());
            let status = Status { code: failure.code, message };
            assert(status@ =~= fetch_failed(addr@, start, failure@));
            Err(status)
        },
    }
}

/// The status where a node was not removed.
pub open spec fn remove_failed(id: u32, failure: StatusView) -> StatusView {
    StatusView {
        code: failure.code,
        message: "error removing node "@ + decimal(id as nat) + ": "@ + failure.message,
    }
}

/// What to make of the answer to the request to remove a node.
pub fn remove_node_result(reply: Result<(), Status>, id_to_remove: u32) -> (r: Result<(), Status>)
    ensures
        match reply {
            Ok(_) => r is Ok,
            Err(failure) => r matches Err(status) && status@ == remove_failed(
                id_to_remove,
                failure@,
            ),
        },
{
    match reply {
        Ok(_) => Ok(()),
        Err(failure) => {
            let mut message = String::new();
            message.append("error removing node ");
            push_decimal(&mut message, id_to_remove as u64);
            message.append(": ");
            message.append(failure.message.as_str());
            let status = Status { code: failure.code, message };
            assert(status@ =~= remove_failed(id_to_remove, failure@));
            Err(status)
        },
    }
}

/// The URI of a node: its address, behind `http://` where the address names no scheme.
pub open spec fn node_uri_text(addr: Seq<char>) -> Seq<char> {
    if find_from(addr, "://"@, 0) is Some {
        addr
    } else {
        "http://"@ + addr
    }
}

/// The URI of the node at an address.
pub fn node_uri(addr: &str) -> (r: String)
    ensures
        r@ =~= node_uri_text(addr@),
{
    let mut out = String::new();
    if find(&chars_of(addr), &chars_of("://"), 0).is_none() {
        out.append("http://");
    }
    out.append(addr);
    out
}

} // verus!
