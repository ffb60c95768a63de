//! The client: what it asks of which node, what it makes of the answers, and what it keeps.

use crate::clients::{
    fetch_chunk_result, law_fetch_stays_in_chunk, node_uri, plan_fetch, plan_fetch_from,
    remove_node_result, ClusterData, ConnectAction, ConnectEvent, FetchChunkResponse,
    FetchChunkResult, FetchPlan, Reload, ReloadAction, ReloadEvent, RemoveTarget,
};
use crate::cluster::{AvalonCluster, GetClusterResponse};
use crate::endpoint::{endpoint_views, unparse_endpoints, AvalonEndpoint};
use crate::error::AvalonError;
use crate::hash::{chunk_hash, law_one_holder, slot_of, AvalonClusterAndHasher, Indicator};
use crate::laws::cluster::{is_cluster_of, lemma_told};
use crate::laws::reads::lesser;
use crate::status::{Code, Status};
use crate::text::{decimal, find_from, lemma_find_from, occurs_at};
use core::ops::Range;
use std::sync::Arc;
use vstd::prelude::*;

verus! {

/// The bytes at the front of a range are asked of the node with which their chunk is found, by the
/// name of the object and from the start of the range on, up to the end of the range or of the
/// chunk. Where the chunk is found nowhere, nothing is asked.
pub proof fn law_fetch_is_asked_of_holder(
    c: &AvalonClusterAndHasher,
    prefix: &str,
    path: &str,
    range: Range<u64>,
    r: Result<FetchPlan, Status>,
    indicator: &Indicator,
    found: Option<u32>,
)
    requires
        c.inner.client_chunk_size > 0,
        call_ensures(plan_fetch, (c, prefix, path, range), r),
        indicator.prefix@ == prefix@,
        indicator.path@ == path@,
        indicator.offset == range.start - range.start as int % c.inner.client_chunk_size as int,
        call_ensures(AvalonClusterAndHasher::lookup, (c, indicator), found),
    ensures
        match found {
            Some(node) => r matches Ok(plan) && {
                &&& plan.node_id == node
                &&& plan.request.prefix@ == prefix@
                &&& plan.request.path@ == path@
                &&& plan.request.offset == range.start
                &&& range.start + plan.request.length == lesser(
                    range.end as int,
                    indicator.offset + c.inner.client_chunk_size,
                )
            },
            None => r matches Err(status) && status.code == Code::Unavailable && status.message@
                =~= "No available servers for chunk starting at "@ + decimal(
                indicator.offset as nat,
            ),
        },
{
    let slot = slot_of(chunk_hash(prefix@, path@, indicator.offset));
    if let (Some(node), Ok(plan)) = (found, r) {
        law_one_holder(c.hasher.servers(), node as int, plan.node_id as int, slot);
    }
}

/// A node is asked for the bytes at the front of a range: by the name of the object, from the start
/// of the range on, up to its end or that of the chunk, and for one byte at least where the range
/// has one.
pub proof fn law_request_names_object(
    node: Option<u32>,
    c: &AvalonCluster,
    prefix: &str,
    path: &str,
    range: Range<u64>,
    r: Result<FetchPlan, Status>,
)
    requires
        c.client_chunk_size > 0,
        range.start <= range.end,
        call_ensures(plan_fetch_from, (node, c, prefix, path, range), r),
    ensures
        match node {
            Some(id) => r matches Ok(plan) && {
                let size = c.client_chunk_size as int;
                &&& plan.node_id == id
                &&& plan.request.prefix@ == prefix@
                &&& plan.request.path@ == path@
                &&& plan.request.offset == range.start
                &&& range.start + plan.request.length == lesser(
                    range.end as int,
                    range.start - range.start as int % size + size,
                )
                &&& range.start < range.end ==> plan.request.length > 0
            },
            None => r matches Err(status) && status.code == Code::Unavailable && status.message@
                =~= "No available servers for chunk starting at "@ + decimal(
                (range.start - range.start as int % c.client_chunk_size as int) as nat,
            ),
        },
{
    law_fetch_stays_in_chunk(range.start as int, range.end as int, c.client_chunk_size as int);
}

/// Fetches that make the same request are fetches of the same object from the same offset on.
pub proof fn law_requests_tell_fetches_apart(
    node1: Option<u32>,
    node2: Option<u32>,
    c1: &AvalonCluster,
    c2: &AvalonCluster,
    prefix1: &str,
    prefix2: &str,
    path1: &str,
    path2: &str,
    range1: Range<u64>,
    range2: Range<u64>,
    plan1: FetchPlan,
    plan2: FetchPlan,
)
    requires
        call_ensures(
            plan_fetch_from,
            (node1, c1, prefix1, path1, range1),
            Ok::<FetchPlan, Status>(plan1),
        ),
        call_ensures(
            plan_fetch_from,
            (node2, c2, prefix2, path2, range2),
            Ok::<FetchPlan, Status>(plan2),
        ),
        plan1.request.prefix@ == plan2.request.prefix@,
        plan1.request.path@ == plan2.request.path@,
        plan1.request.offset == plan2.request.offset,
    ensures
        prefix1@ == prefix2@,
        path1@ == path2@,
        range1.start == range2.start,
{
}

/// What a node gives is handed on as it is; where it fails, its code is kept, and its message is
/// told with the node's address and the offset.
pub proof fn law_reply_is_handed_on(
    reply: Result<FetchChunkResponse, Status>,
    addr: &str,
    start: u64,
    r: Result<FetchChunkResult, Status>,
)
    requires
        call_ensures(fetch_chunk_result, (reply, addr, start), r),
    ensures
        match reply {
            Ok(response) => r matches Ok(result) && {
                &&& result.data@ == response.payload@
                &&& result.object_size == response.object_size
                &&& result.object_mtime == response.object_mtime
                &&& result.offset == start
            },
            Err(failure) => r matches Err(status) && {
                &&& status.code == failure.code
                &&& status.message@ =~= "Server "@ + addr@
                    + " returned error for FetchChunkRequest at offset "@ + decimal(start as nat)
                    + ": "@ + failure.message@
            },
        },
{
}

/// A removal succeeds where the node says so; else its code is kept, and its message is told with
/// the id.
pub proof fn law_removal_is_told(
    reply: Result<(), Status>,
    id: u32,
    r: Result<(), Status>,
)
    requires
        call_ensures(remove_node_result, (reply, id), r),
    ensures
        r is Ok <==> reply is Ok,
        reply matches Err(failure) ==> (r matches Err(status) && status.code == failure.code
            && status.message@ =~= "error removing node "@ + decimal(id as nat) + ": "@
            + failure.message@),
{
}

/// A node is reached at its address, over `http` unless the address names a scheme.
pub proof fn law_node_uri(addr: &str, r: String)
    requires
        call_ensures(node_uri, (addr,), r),
    ensures
        (exists|i: int|
            0 <= i && i + 3 <= addr@.len() && #[trigger] addr@.subrange(i, i + 3) == "://"@)
            ==> r@ == addr@,
        (forall|i: int|
            0 <= i && i + 3 <= addr@.len() ==> #[trigger] addr@.subrange(i, i + 3) != "://"@)
            ==> r@ =~= "http://"@ + addr@,
{
    reveal_strlit("://");
    lemma_find_from(addr@, "://"@, 0);
    if exists|i: int|
        0 <= i && i + 3 <= addr@.len() && #[trigger] addr@.subrange(i, i + 3) == "://"@ {
        let i = choose|i: int|
            0 <= i && i + 3 <= addr@.len() && #[trigger] addr@.subrange(i, i + 3) == "://"@;
        assert(occurs_at(addr@, "://"@, i));
    } else if let Some(k) = find_from(addr@, "://"@, 0) {
        assert(addr@.subrange(k, k + 3) == "://"@);
    }
}

/// At first nothing is known and nobody connected, and the first of the endpoints is next.
pub proof fn law_nothing_is_known_at_first<C>(
    endpoints: Vec<AvalonEndpoint>,
    d: ClusterData<C>,
    cluster: Option<&Arc<AvalonClusterAndHasher>>,
    node_id: u32,
    client: Option<&C>,
)
    requires
        call_ensures(ClusterData::<C>::new, (endpoints,), d),
        call_ensures(ClusterData::<C>::cluster, (&d,), cluster),
        call_ensures(ClusterData::<C>::client, (&d, node_id), client),
    ensures
        d.endpoints().len() == endpoints.len(),
        forall|i: int|
            0 <= i < endpoints.len() ==> (#[trigger] d.endpoints()[i]).host == endpoints[i].host@
                && d.endpoints()[i].port == endpoints[i].port,
        d.next() == 0,
        cluster is None,
        client is None,
{
    assert forall|i: int| 0 <= i < endpoints.len() implies (#[trigger] d.endpoints()[i]).host
        == endpoints[i].host@ && d.endpoints()[i].port == endpoints[i].port by {
        assert(endpoint_views(endpoints@)[i] == endpoints[i]@);
    }
}

/// `d` is asked, or searched, for the cluster with `event`.
pub open spec fn asks_or_searches<C>(
    d: &mut ClusterData<C>,
    reload: &mut Reload,
    event: ReloadEvent<C>,
    r: ReloadAction,
) -> bool {
    ||| call_ensures(ClusterData::<C>::reload_cluster, (d, reload, event), r)
    ||| d.known() is None && call_ensures(
        ClusterData::<C>::get_cluster,
        (d, reload, event),
        r,
    )
}

/// The cluster that is known after an answer is the cluster of that answer, in every field; its
/// source node has the connection over which the answer came, and every other connection stays.
pub proof fn law_answer_makes_cluster_known<C>(
    d: &mut ClusterData<C>,
    reload: &mut Reload,
    response: GetClusterResponse,
    client: C,
    r: ReloadAction,
    cluster: Option<&Arc<AvalonClusterAndHasher>>,
    node_id: u32,
    held: Option<&C>,
    held_before: Option<&C>,
)
    requires
        asks_or_searches(d, reload, ReloadEvent::Answered { response, client }, r),
        r is Done,
        call_ensures(ClusterData::<C>::cluster, (&*final(d),), cluster),
        call_ensures(ClusterData::<C>::client, (&*final(d), node_id), held),
        call_ensures(ClusterData::<C>::client, (&*old(d), node_id), held_before),
    ensures
        cluster matches Some(c) && is_cluster_of(response, c.inner) && c.well_formed(),
        if node_id == response.source_node_id {
            held == Some(&client)
        } else {
            held == held_before
        },
        final(d).endpoints() == old(d).endpoints(),
        final(d).next() == old(d).next(),
{
    if let Some(c) = cluster {
        lemma_told(response, &c.inner);
    }
}

/// What comes of an answer is what comes of reading it and then of sharing the slots: an answer
/// that cannot be read, or a cluster with too many servers, ends the search and is told; a cluster
/// that leaves slots over is told; and nothing of these is kept.
pub proof fn law_answer_is_read_then_shared<C>(
    d: &mut ClusterData<C>,
    reload: &mut Reload,
    response: GetClusterResponse,
    client: C,
    r: ReloadAction,
    told: Result<AvalonCluster, AvalonError>,
    made: Option<Result<AvalonClusterAndHasher, AvalonError>>,
    said: String,
)
    requires
        asks_or_searches(d, reload, ReloadEvent::Answered { response, client }, r),
        call_ensures(AvalonCluster::from_response, (&response,), told),
        told is Ok ==> call_ensures(AvalonClusterAndHasher::try_new, (told->Ok_0,), made),
        told matches Err(e) ==> call_ensures(AvalonError::to_string, (&e,), said),
        told is Ok ==> (made matches Some(Err(e)) ==> call_ensures(
            AvalonError::to_string,
            (&e,),
            said,
        )),
    ensures
        match told {
            Err(_) => r matches ReloadAction::Failed { status } && status.code == Code::Unknown
                && status.message@ =~= "Server "@ + old(reload).addr()
                + " returned a GetClusterRequest that could not be parsed: "@ + said@,
            Ok(_) => match made {
                None => r is SlotsUncovered,
                Some(Err(_)) => r matches ReloadAction::Failed { status } && status.code
                    == Code::Unknown && status.message@ =~= "AvalonClusterAndHasher::new failed: "@
                    + said@,
                Some(Ok(_)) => r is Done,
            },
        },
        !(r is Done) ==> final(d).known() == old(d).known() && final(d).clients()
            == old(d).clients(),
        *final(reload) == *old(reload),
{
}

/// Where nobody has answered yet, the endpoint that is next is asked at its host and port, and the
/// one behind it is next then, the first behind the last. After as many tries as there are
/// endpoints, the search fails and names them all.
pub proof fn law_search_asks_next_endpoint<C>(
    d: &mut ClusterData<C>,
    reload: &mut Reload,
    event: ReloadEvent<C>,
    r: ReloadAction,
    endpoints: &Vec<AvalonEndpoint>,
    written: String,
)
    requires
        old(d).well_formed(),
        0 <= old(reload).tries(),
        !(event is Answered),
        asks_or_searches(d, reload, event, r),
        endpoint_views(endpoints@) == old(d).endpoints(),
        call_ensures(unparse_endpoints, (endpoints,), written),
    ensures
        final(d).endpoints() == old(d).endpoints(),
        final(d).known() == old(d).known(),
        final(d).clients() == old(d).clients(),
        if old(reload).tries() < endpoints.len() {
            &&& r matches ReloadAction::Ask { addr } && addr@ =~= endpoints[old(d).next()].host@
                + ":"@ + decimal(endpoints[old(d).next()].port as nat) && final(reload).addr()
                == addr@
            &&& final(d).next() == if old(d).next() + 1 < endpoints.len() {
                old(d).next() + 1
            } else {
                0
            }
            &&& final(reload).tries() == old(reload).tries() + 1
        } else {
            &&& r matches ReloadAction::Failed { status } && status.code == Code::Unavailable
                && status.message@
                =~= "Unable to connect to any of the bootstrap endpoints in "@ + written@
            &&& final(d).next() == old(d).next()
            &&& *final(reload) == *old(reload)
        },
{
    let count = endpoints.len() as int;
    let next = old(d).next();
    if old(reload).tries() < endpoints.len() {
        assert(endpoint_views(endpoints@)[next] == endpoints[next]@);
        if next + 1 < count {
            vstd::arithmetic::div_mod::lemma_small_mod((next + 1) as nat, count as nat);
        } else {
            vstd::arithmetic::div_mod::lemma_mod_self_0(count);
        }
    }
}

/// A cluster that is known is the answer to the question for it at once, and nothing changes.
pub proof fn law_known_cluster_is_the_answer<C>(
    d: &mut ClusterData<C>,
    reload: &mut Reload,
    event: ReloadEvent<C>,
    r: ReloadAction,
)
    requires
        old(d).known() is Some,
        call_ensures(ClusterData::<C>::get_cluster, (d, reload, event), r),
    ensures
        r is Done,
        *final(d) == *old(d),
        *final(reload) == *old(reload),
{
}

/// A new search has tried nobody.
pub proof fn law_new_search(r: Reload)
    requires
        call_ensures(Reload::new, (), r),
    ensures
        r.tries() == 0,
{
}

/// The endpoints take turns in a circle.
pub proof fn law_endpoints_take_turns<C>(d: &mut ClusterData<C>, r: usize)
    requires
        old(d).well_formed(),
        old(d).endpoints().len() > 0,
        call_ensures(ClusterData::<C>::next_bootstrap_endpoint, (d,), r),
    ensures
        r == old(d).next(),
        final(d).next() == if r + 1 < old(d).endpoints().len() {
            r + 1
        } else {
            0
        },
        final(d).endpoints() == old(d).endpoints(),
        final(d).known() == old(d).known(),
        final(d).clients() == old(d).clients(),
{
    let count = old(d).endpoints().len() as int;
    if r + 1 < count {
        vstd::arithmetic::div_mod::lemma_small_mod((r + 1) as nat, count as nat);
    } else {
        vstd::arithmetic::div_mod::lemma_mod_self_0(count);
    }
}

/// `d` is asked, or searched, for the connection to a node with `event`.
pub open spec fn reaches_or_connects<C>(
    d: &mut ClusterData<C>,
    node_id: u32,
    event: ConnectEvent<C>,
    r: ConnectAction,
) -> bool {
    ||| call_ensures(ClusterData::<C>::reload_node_client, (d, node_id, event), r)
    ||| !d.clients().contains_key(node_id) && call_ensures(
        ClusterData::<C>::node_client,
        (d, node_id, event),
        r,
    )
}

/// A node of the known cluster is connected at its own host and port, and the connection is kept as
/// that of this node, with every other left alone. A node that the cluster does not have, or that
/// cannot be connected, is told, and nothing is kept.
pub proof fn law_node_is_connected_at_its_endpoint<C>(
    d: &mut ClusterData<C>,
    node_id: u32,
    event: ConnectEvent<C>,
    r: ConnectAction,
    cluster: &Arc<AvalonClusterAndHasher>,
    other: u32,
    held: Option<&C>,
    held_before: Option<&C>,
)
    requires
        call_ensures(ClusterData::<C>::cluster, (&*old(d),), Some(cluster)),
        reaches_or_connects(d, node_id, event, r),
        call_ensures(ClusterData::<C>::client, (&*final(d), other), held),
        call_ensures(ClusterData::<C>::client, (&*old(d), other), held_before),
    ensures
        ({
            let nodes = cluster.inner.nodes@;
            let text = nodes[node_id].host@ + ":"@ + decimal(nodes[node_id].port as nat);
            if !nodes.contains_key(node_id) {
                r matches ConnectAction::Failed { status } && status.code == Code::Unknown
                    && status.message@ =~= "No node in the cluster was found with id "@ + decimal(
                    node_id as nat,
                ) + "."@
            } else {
                match event {
                    ConnectEvent::Started => r matches ConnectAction::Connect { addr } && addr@
                        =~= text,
                    ConnectEvent::NotConnected { error } => r matches ConnectAction::Failed {
                        status,
                    } && status.code == Code::Unavailable && status.message@
                        =~= "Unable to connect to "@ + text + ": "@ + error@,
                    ConnectEvent::Connected { client } => r is Done,
                }
            }
        }),
        if cluster.inner.nodes@.contains_key(node_id) && event is Connected && other == node_id {
            held == Some(&event->client)
        } else {
            held == held_before
        },
        final(d).known() == old(d).known(),
        final(d).endpoints() == old(d).endpoints(),
        final(d).next() == old(d).next(),
{
    let nodes = cluster.inner.nodes@;
    assert(cluster.inner@.nodes.contains_key(node_id) == nodes.contains_key(node_id));
    if nodes.contains_key(node_id) {
        assert(cluster.inner@.nodes[node_id] == nodes[node_id]@);
    }
}

/// A connection that is held is the answer to the question for it at once, and nothing changes.
pub proof fn law_held_connection_is_the_answer<C>(
    d: &mut ClusterData<C>,
    node_id: u32,
    event: ConnectEvent<C>,
    r: ConnectAction,
    held: &C,
)
    requires
        call_ensures(ClusterData::<C>::client, (&*old(d), node_id), Some(held)),
        call_ensures(ClusterData::<C>::node_client, (d, node_id, event), r),
    ensures
        r is Done,
        *final(d) == *old(d),
{
}

/// A removal is told over a connection that is held. Without any it is told to the node that is up
/// and has the smallest id, and without such a node it fails.
pub proof fn law_removal_is_told_to_somebody<C>(
    d: &ClusterData<C>,
    cluster: &Arc<AvalonClusterAndHasher>,
    r: RemoveTarget<'_, C>,
)
    requires
        call_ensures(ClusterData::<C>::cluster, (d,), Some(cluster)),
        call_ensures(ClusterData::<C>::remove_target, (d,), r),
    ensures
        r is Client <==> !(d.clients().dom() =~= Set::<u32>::empty()),
        r matches RemoveTarget::Client { client } ==> exists|id: u32| #[trigger]
            d.clients().contains_key(id) && d.clients()[id] == *client,
        r matches RemoveTarget::Node { id } ==> cluster.inner.up@.contains(id) && forall|other: u32|
            #[trigger] cluster.inner.up@.contains(other) ==> id <= other,
        r matches RemoveTarget::Failed { status } ==> cluster.inner.up@ =~= Set::<u32>::empty()
            && status.code == Code::Unavailable && status.message@
            == "No servers were up to receive this request."@,
{
    if let RemoveTarget::Client { client } = r {
        let id = choose|id: u32| #[trigger]
            d.clients().contains_key(id) && d.clients()[id] == *client;
        assert(d.clients().dom().contains(id));
    }
}

} // verus!
