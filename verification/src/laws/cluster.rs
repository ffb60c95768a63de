//! Clusters: how an answer and the cluster that it tells of hang together, field by field.

use crate::cluster::{
    cluster_told, empty_cluster, endpoints_told, law_cluster_round_trip, node_ids, tells_of,
    valid_cluster, AvalonCluster, ClusterView, GetClusterResponse, GetClusterResponseNode, NodeView,
};
use crate::endpoint::{make_endpoint, EndpointView};
use crate::error::{AvalonError, AvalonErrorView};
use vstd::prelude::*;

verus! {

/// A node of an answer can be an endpoint.
pub open spec fn usable(node: GetClusterResponseNode) -> bool {
    node.host@.len() > 0 && node.port < 0x1_0000
}

/// Some node of an answer has this id.
pub open spec fn has_id(response: GetClusterResponse, id: u32) -> bool {
    exists|i: int| 0 <= i < response.nodes.len() && (#[trigger] response.nodes[i]).id == id
}

/// Some node of an answer has this id, and is up.
pub open spec fn has_up(response: GetClusterResponse, id: u32) -> bool {
    exists|i: int|
        0 <= i < response.nodes.len() && (#[trigger] response.nodes[i]).id == id
            && response.nodes[i].up
}

/// Node `i` of an answer is the last with its id.
pub open spec fn is_last_of_id(response: GetClusterResponse, i: int) -> bool {
    &&& 0 <= i < response.nodes.len()
    &&& forall|j: int|
        i < j < response.nodes.len() ==> (#[trigger] response.nodes[j]).id != response.nodes[i].id
}

/// `c` is the cluster of an answer, in every field: its number is made of the two halves, its
/// chunk size and source node are those of the answer, its nodes are those of the answer, each at
/// the host and the port that were told last, and those of them are up that were told to be.
pub open spec fn is_cluster_of(response: GetClusterResponse, c: AvalonCluster) -> bool {
    &&& c.cluster_id == response.cluster_id_hi * 0x1_0000_0000_0000_0000 + response.cluster_id_lo
    &&& c.client_chunk_size == response.client_chunk_size
    &&& c.source_node_id == response.source_node_id
    &&& forall|id: u32| #[trigger] c.nodes@.contains_key(id) <==> has_id(response, id)
    &&& forall|id: u32| #[trigger] c.up@.contains(id) <==> has_up(response, id)
    &&& forall|i: int| #[trigger]
        is_last_of_id(response, i) ==> {
            &&& c.nodes@[response.nodes[i].id].host@ == response.nodes[i].host@
            &&& c.nodes@[response.nodes[i].id].port == response.nodes[i].port
        }
}

/// The endpoint that is told of an id is that of the last node with it.
proof fn lemma_last_told(nodes: Seq<NodeView>, i: int)
    requires
        endpoints_told(nodes) is Ok,
        0 <= i < nodes.len(),
        forall|j: int| i < j < nodes.len() ==> (#[trigger] nodes[j]).id != nodes[i].id,
    ensures
        (endpoints_told(nodes)->Ok_0)[nodes[i].id] == (EndpointView {
            host: nodes[i].host,
            port: nodes[i].port,
        }),
    decreases nodes.len(),
{
    let init = nodes.drop_last();
    if i < nodes.len() - 1 {
        assert(init[i] == nodes[i]);
        assert forall|j: int| i < j < init.len() implies (#[trigger] init[j]).id != init[i].id by {
            assert(init[j] == nodes[j]);
        }
        lemma_last_told(init, i);
        assert(nodes[nodes.len() - 1].id != nodes[i].id);
    }
}

/// The ids that are told are those of the nodes.
proof fn lemma_ids_told(nodes: Seq<NodeView>, id: u32)
    requires
        endpoints_told(nodes) is Ok,
    ensures
        (endpoints_told(nodes)->Ok_0).contains_key(id) <==> exists|i: int|
            0 <= i < nodes.len() && (#[trigger] nodes[i]).id == id,
    decreases nodes.len(),
{
    if nodes.len() > 0 {
        let init = nodes.drop_last();
        lemma_ids_told(init, id);
        assert(nodes[nodes.len() - 1] == nodes.last());
        if exists|i: int| 0 <= i < init.len() && (#[trigger] init[i]).id == id {
            let i = choose|i: int| 0 <= i < init.len() && (#[trigger] init[i]).id == id;
            assert(nodes[i].id == id);
        }
        if exists|i: int| 0 <= i < nodes.len() && (#[trigger] nodes[i]).id == id {
            let i = choose|i: int| 0 <= i < nodes.len() && (#[trigger] nodes[i]).id == id;
            if i < init.len() {
                assert(init[i].id == id);
            }
        }
    }
}

/// The nodes of an answer are usable up to the first that is not.
proof fn lemma_first_bad(nodes: Seq<NodeView>)
    ensures
        match endpoints_told(nodes) {
            Ok(_) => forall|i: int|
                0 <= i < nodes.len() ==> make_endpoint((#[trigger] nodes[i]).host, nodes[i].port)
                    is Ok,
            Err(e) => exists|i: int| #[trigger] is_first_bad(nodes, i, e),
        },
    decreases nodes.len(),
{
    if nodes.len() > 0 {
        let init = nodes.drop_last();
        let last = nodes.len() - 1;
        lemma_first_bad(init);
        assert(forall|i: int| 0 <= i < init.len() ==> init[i] == #[trigger] nodes[i]);
        match endpoints_told(init) {
            Ok(_) => {
                assert forall|i: int| 0 <= i < last implies make_endpoint(
                    (#[trigger] nodes[i]).host,
                    nodes[i].port,
                ) is Ok by {
                    assert(init[i] == nodes[i]);
                }
                if let Err(e) = endpoints_told(nodes) {
                    assert(is_first_bad(nodes, last, e));
                }
            },
            Err(e) => {
                let i = choose|i: int| #[trigger] is_first_bad(init, i, e);
                assert forall|j: int| 0 <= j < i implies make_endpoint(
                    (#[trigger] nodes[j]).host,
                    nodes[j].port,
                ) is Ok by {
                    assert(init[j] == nodes[j]);
                }
                assert(is_first_bad(nodes, i, e));
            },
        }
    }
}

/// Node `i` is the first that is no endpoint, and `e` says why.
spec fn is_first_bad(nodes: Seq<NodeView>, i: int, e: AvalonErrorView) -> bool {
    &&& 0 <= i < nodes.len()
    &&& make_endpoint(nodes[i].host, nodes[i].port) == Err::<EndpointView, AvalonErrorView>(e)
    &&& forall|j: int|
        0 <= j < i ==> make_endpoint((#[trigger] nodes[j]).host, nodes[j].port) is Ok
}

/// What an answer tells of is the cluster of that answer.
pub proof fn lemma_told(response: GetClusterResponse, c: &AvalonCluster)
    requires
        cluster_told(response@) == Ok::<ClusterView, AvalonErrorView>(c@),
    ensures
        is_cluster_of(response, *c),
{
    let nodes = response@.nodes;
    assert(forall|i: int| 0 <= i < nodes.len() ==> #[trigger] nodes[i] == response.nodes[i]@);
    assert forall|id: u32| #[trigger] c.nodes@.contains_key(id) <==> has_id(response, id) by {
        lemma_ids_told(nodes, id);
        assert(c@.nodes.contains_key(id) == c.nodes@.contains_key(id));
        if has_id(response, id) {
            let i = choose|i: int|
                0 <= i < response.nodes.len() && (#[trigger] response.nodes[i]).id == id;
            assert(nodes[i].id == id);
        }
        if exists|i: int| 0 <= i < nodes.len() && (#[trigger] nodes[i]).id == id {
            let i = choose|i: int| 0 <= i < nodes.len() && (#[trigger] nodes[i]).id == id;
            assert(response.nodes[i].id == id);
        }
    }
    assert forall|id: u32| #[trigger] c.up@.contains(id) <==> has_up(response, id) by {
        if has_up(response, id) {
            let i = choose|i: int|
                0 <= i < response.nodes.len() && (#[trigger] response.nodes[i]).id == id
                    && response.nodes[i].up;
            assert(nodes[i].id == id && nodes[i].up);
        }
        if c.up@.contains(id) {
            let i = choose|i: int|
                0 <= i < nodes.len() && (#[trigger] nodes[i]).id == id && nodes[i].up;
            assert(response.nodes[i].id == id && response.nodes[i].up);
        }
    }
    assert forall|i: int| #[trigger] is_last_of_id(response, i) implies c.nodes@[
    response.nodes[i].id].host@ == response.nodes[i].host@ && c.nodes@[response.nodes[i].id].port
        == response.nodes[i].port by {
        let id = response.nodes[i].id;
        assert forall|j: int| i < j < nodes.len() implies (#[trigger] nodes[j]).id
            != nodes[i].id by {
            assert(response.nodes[j].id != response.nodes[i].id);
        }
        lemma_last_told(nodes, i);
        assert(has_id(response, id));
        assert(c.nodes@.contains_key(id));
        assert(c@.nodes[id] == c.nodes@[id]@);
    }
}

/// An answer is taken exactly where all its nodes are usable and its source node is one of them,
/// and then gives the cluster of the answer; else the first node that is not usable is told, and
/// after that a source node that is missing.
pub proof fn law_answer_gives_its_cluster(
    response: &GetClusterResponse,
    r: Result<AvalonCluster, AvalonError>,
)
    requires
        call_ensures(AvalonCluster::from_response, (response,), r),
    ensures
        r is Ok <==> (forall|i: int|
            0 <= i < response.nodes.len() ==> usable(#[trigger] response.nodes[i])) && has_id(
            *response,
            response.source_node_id,
        ),
        r matches Ok(c) ==> is_cluster_of(*response, c),
        r matches Err(e) ==> {
            ||| exists|i: int| #[trigger] is_first_unusable(*response, i, e)
            ||| (e matches AvalonError::SourceNodeMissing { id } && id == response.source_node_id
                && forall|i: int|
                0 <= i < response.nodes.len() ==> usable(#[trigger] response.nodes[i]))
        },
{
    let nodes = response@.nodes;
    assert(forall|i: int| 0 <= i < nodes.len() ==> #[trigger] nodes[i] == response.nodes[i]@);
    lemma_first_bad(nodes);
    if endpoints_told(nodes) is Ok {
        assert forall|i: int| 0 <= i < response.nodes.len() implies usable(
            #[trigger] response.nodes[i],
        ) by {
            assert(make_endpoint(nodes[i].host, nodes[i].port) is Ok);
        }
        lemma_ids_told(nodes, response.source_node_id);
        if has_id(*response, response.source_node_id) {
            let i = choose|i: int|
                0 <= i < response.nodes.len() && (#[trigger] response.nodes[i]).id
                    == response.source_node_id;
            assert(nodes[i].id == response.source_node_id);
        }
    } else {
        let e = endpoints_told(nodes)->Err_0;
        let i = choose|i: int| #[trigger] is_first_bad(nodes, i, e);
        assert(!usable(response.nodes[i]));
        assert forall|j: int| 0 <= j < i implies usable(#[trigger] response.nodes[j]) by {
            assert(make_endpoint(nodes[j].host, nodes[j].port) is Ok);
        }
        if let Err(error) = r {
            assert(is_first_unusable(*response, i, error));
        }
    }
    if let Ok(c) = r {
        lemma_told(*response, &c);
        assert(has_id(*response, response.source_node_id)) by {
            assert(c@.nodes.contains_key(response.source_node_id));
            assert(c.nodes@.contains_key(response.source_node_id));
        }
    }
}

/// Node `i` of an answer is the first that is not usable, and `e` says why.
pub open spec fn is_first_unusable(response: GetClusterResponse, i: int, e: AvalonError) -> bool {
    &&& 0 <= i < response.nodes.len()
    &&& !usable(response.nodes[i])
    &&& forall|j: int| 0 <= j < i ==> usable(#[trigger] response.nodes[j])
    &&& if response.nodes[i].host@.len() == 0 {
        e is EmptyHostname
    } else {
        e matches AvalonError::PortTooLarge { port } && port == response.nodes[i].port
    }
}

/// A cluster tells of itself in every field: the halves of its number, its chunk size, its source
/// node, and its nodes by ascending id, each once, with its host, its port and whether it is up.
pub proof fn law_cluster_tells_of_itself(c: &AvalonCluster, r: GetClusterResponse)
    requires
        call_ensures(AvalonCluster::to_response, (c,), r),
    ensures
        r.cluster_id_hi * 0x1_0000_0000_0000_0000 + r.cluster_id_lo == c.cluster_id,
        r.client_chunk_size == c.client_chunk_size,
        r.source_node_id == c.source_node_id,
        forall|i: int, j: int|
            0 <= i < j < r.nodes.len() ==> (#[trigger] r.nodes[i]).id < (#[trigger] r.nodes[j]).id,
        forall|id: u32| #[trigger] c.nodes@.contains_key(id) <==> has_id(r, id),
        forall|i: int|
            0 <= i < r.nodes.len() ==> {
                let node = #[trigger] r.nodes[i];
                &&& node.host@ == c.nodes@[node.id].host@
                &&& node.port == c.nodes@[node.id].port
                &&& node.up == c.up@.contains(node.id)
            },
{
    let nodes = r@.nodes;
    let ids = node_ids(nodes);
    assert(forall|i: int| 0 <= i < nodes.len() ==> #[trigger] nodes[i] == r.nodes[i]@);
    assert(forall|i: int| 0 <= i < nodes.len() ==> #[trigger] ids[i] == r.nodes[i].id);
    assert forall|i: int, j: int| 0 <= i < j < r.nodes.len() implies (#[trigger] r.nodes[i]).id < (
    #[trigger] r.nodes[j]).id by {
        assert(ids[i] < ids[j]);
    }
    assert forall|id: u32| #[trigger] c.nodes@.contains_key(id) <==> has_id(r, id) by {
        assert(c@.nodes.contains_key(id) == c.nodes@.contains_key(id));
        if has_id(r, id) {
            let i = choose|i: int| 0 <= i < r.nodes.len() && (#[trigger] r.nodes[i]).id == id;
            assert(ids[i] == id);
            assert(ids.to_set().contains(id));
        }
        if c.nodes@.contains_key(id) {
            assert(ids.to_set().contains(id));
            let i = choose|i: int| 0 <= i < ids.len() && ids[i] == id;
            assert(r.nodes[i].id == id);
        }
    }
    assert forall|i: int| 0 <= i < r.nodes.len() implies {
        let node = #[trigger] r.nodes[i];
        &&& node.host@ == c.nodes@[node.id].host@
        &&& node.port == c.nodes@[node.id].port
        &&& node.up == c.up@.contains(node.id)
    } by {
        let id = r.nodes[i].id;
        assert(has_id(r, id));
        assert(c.nodes@.contains_key(id));
        assert(c@.nodes[id] == c.nodes@[id]@);
        assert(nodes[i] == crate::cluster::node_of(c@, nodes[i].id));
    }
}

/// What a cluster tells of itself gives the cluster back, where its endpoints are usable, its
/// source node is one of its nodes, and only its nodes are up.
pub proof fn law_told_cluster_comes_back(
    c: &AvalonCluster,
    told: GetClusterResponse,
    r: Result<AvalonCluster, AvalonError>,
)
    requires
        forall|id: u32| #[trigger]
            c.nodes@.contains_key(id) ==> c.nodes@[id].host@.len() > 0 && c.nodes@[id].port
                < 0x1_0000,
        c.nodes@.contains_key(c.source_node_id),
        c.up@.subset_of(c.nodes@.dom()),
        call_ensures(AvalonCluster::to_response, (c,), told),
        call_ensures(AvalonCluster::from_response, (&told,), r),
    ensures
        r matches Ok(back) && {
            &&& back.cluster_id == c.cluster_id
            &&& back.client_chunk_size == c.client_chunk_size
            &&& back.source_node_id == c.source_node_id
            &&& back.up@ =~= c.up@
            &&& back.nodes@.dom() =~= c.nodes@.dom()
            &&& forall|id: u32| #[trigger]
                c.nodes@.contains_key(id) ==> back.nodes@[id].host@ == c.nodes@[id].host@
                    && back.nodes@[id].port == c.nodes@[id].port
        },
{
    assert(c@.nodes.dom() =~= c.nodes@.dom());
    assert forall|id: u32| #[trigger] c@.nodes.contains_key(
        id,
    ) implies crate::endpoint::valid_endpoint(c@.nodes[id]) by {
        assert(c.nodes@.contains_key(id));
        assert(c@.nodes[id] == c.nodes@[id]@);
    }
    assert(valid_cluster(c@));
    assert(tells_of(told@, c@));
    law_cluster_round_trip(c@, told@);
    if let Ok(back) = r {
        assert(back@ == c@);
        assert(back@.nodes.dom() =~= back.nodes@.dom());
        assert forall|id: u32| #[trigger] c.nodes@.contains_key(id) implies back.nodes@[id].host@
            == c.nodes@[id].host@ && back.nodes@[id].port == c.nodes@[id].port by {
            assert(back.nodes@.contains_key(id));
            assert(c@.nodes[id] == c.nodes@[id]@);
            assert(back@.nodes[id] == back.nodes@[id]@);
        }
    }
}

/// An offset is aligned to the multiple of the chunk size that begins its chunk.
pub proof fn law_offset_is_aligned(c: &AvalonCluster, offset: u64, r: u64)
    requires
        c.client_chunk_size > 0,
        call_ensures(AvalonCluster::align_offset_to_chunk_boundary, (c, offset), r),
    ensures
        r as int % c.client_chunk_size as int == 0,
        r <= offset < r + c.client_chunk_size,
{
    crate::cluster::law_aligned_offset(offset as int, c.client_chunk_size as int);
}

/// The empty cluster has nothing in it.
pub proof fn law_empty_cluster(c: AvalonCluster)
    requires
        call_ensures(empty_cluster, (), c),
    ensures
        c.cluster_id == 0,
        c.client_chunk_size == 0,
        c.source_node_id == 0,
        c.nodes@.dom() =~= Set::<u32>::empty(),
        c.up@ =~= Set::<u32>::empty(),
{
    assert(c@.nodes.dom() =~= c.nodes@.dom());
}

} // verus!
