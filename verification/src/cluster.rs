//! Clusters: the nodes, which of them are up, and how a node tells of its cluster.

use crate::cluster_id::{id_from_pair, id_to_pair};
use crate::endpoint::{make_endpoint, valid_endpoint, AvalonEndpoint, EndpointView};
use crate::error::{AvalonError, AvalonErrorView};
use crate::ordered::{ascending, ids_of, lemma_ids_ordered};
use std::collections::{BTreeMap, BTreeSet};
use vstd::prelude::*;

verus! {

/// One node in a node's answer to the question for its cluster.
#[derive(Clone, Debug, PartialEq)]
pub struct GetClusterResponseNode {
    pub id: u32,
    pub host: String,
    pub port: u32,
    pub up: bool,
}

/// A node's answer to the question for its cluster.
#[derive(Clone, Debug, PartialEq)]
pub struct GetClusterResponse {
    pub cluster_id_hi: u64,
    pub cluster_id_lo: u64,
    pub client_chunk_size: u32,
    pub source_node_id: u32,
    pub nodes: Vec<GetClusterResponseNode>,
}

/// A cluster, as one of its nodes, the source node, sees it.
#[derive(Clone, Debug, PartialEq)]
pub struct AvalonCluster {
    /// The cluster's UUID as a number.
    pub cluster_id: u128,
    pub client_chunk_size: u32,
    pub source_node_id: u32,
    pub nodes: BTreeMap<u32, AvalonEndpoint>,
    pub up: BTreeSet<u32>,
}

/// A `GetClusterResponseNode` with its host as a sequence of characters.
#[verifier::ext_equal]
pub struct NodeView {
    pub id: u32,
    pub host: Seq<char>,
    pub port: u32,
    pub up: bool,
}

impl View for GetClusterResponseNode {
    type V = NodeView;

    open spec fn view(&self) -> NodeView {
        NodeView { id: self.id, host: self.host@, port: self.port, up: self.up }
    }
}

/// A `GetClusterResponse` with its nodes as a sequence.
#[verifier::ext_equal]
pub struct ResponseView {
    pub cluster_id_hi: u64,
    pub cluster_id_lo: u64,
    pub client_chunk_size: u32,
    pub source_node_id: u32,
    pub nodes: Seq<NodeView>,
}

/// The nodes of an answer.
pub open spec fn node_views(nodes: Seq<GetClusterResponseNode>) -> Seq<NodeView> {
    nodes.map_values(|n: GetClusterResponseNode| n@)
}

impl View for GetClusterResponse {
    type V = ResponseView;

    open spec fn view(&self) -> ResponseView {
        ResponseView {
            cluster_id_hi: self.cluster_id_hi,
            cluster_id_lo: self.cluster_id_lo,
            client_chunk_size: self.client_chunk_size,
            source_node_id: self.source_node_id,
            nodes: node_views(self.nodes@),
        }
    }
}

/// An `AvalonCluster` with its nodes as a map and the nodes that are up as a set.
#[verifier::ext_equal]
pub struct ClusterView {
    pub cluster_id: u128,
    pub client_chunk_size: u32,
    pub source_node_id: u32,
    pub nodes: Map<u32, EndpointView>,
    pub up: Set<u32>,
}

/// The endpoints of a map.
pub open spec fn endpoint_map(m: Map<u32, AvalonEndpoint>) -> Map<u32, EndpointView> {
    m.map_values(|e: AvalonEndpoint| e@)
}

impl View for AvalonCluster {
    type V = ClusterView;

    open spec fn view(&self) -> ClusterView {
        ClusterView {
            cluster_id: self.cluster_id,
            client_chunk_size: self.client_chunk_size,
            source_node_id: self.source_node_id,
            nodes: endpoint_map(self.nodes@),
            up: self.up@,
        }
    }
}

/// The number of a UUID whose halves are `hi` and `lo`.
pub open spec fn id_of_halves(hi: u64, lo: u64) -> int {
    hi * 0x1_0000_0000_0000_0000 + lo
}

/// How a cluster tells of one of its nodes.
pub open spec fn node_of(c: ClusterView, id: u32) -> NodeView {
    NodeView { id, host: c.nodes[id].host, port: c.nodes[id].port, up: c.up.contains(id) }
}

/// The ids of the nodes in an answer.
pub open spec fn node_ids(nodes: Seq<NodeView>) -> Seq<u32> {
    nodes.map_values(|n: NodeView| n.id)
}

/// The answer in which a cluster tells of itself: each of its nodes once, by ascending id.
pub open spec fn tells_of(r: ResponseView, c: ClusterView) -> bool {
    &&& id_of_halves(r.cluster_id_hi, r.cluster_id_lo) == c.cluster_id
    &&& r.client_chunk_size == c.client_chunk_size
    &&& r.source_node_id == c.source_node_id
    &&& ascending(node_ids(r.nodes))
    &&& node_ids(r.nodes).to_set() =~= c.nodes.dom()
    &&& forall|i: int|
        0 <= i < r.nodes.len() ==> #[trigger] r.nodes[i] == node_of(c, r.nodes[i].id)
}

/// The endpoints of the nodes in an answer, where a later node replaces an earlier one with its
/// id; or what is wrong with the first that has none.
pub open spec fn endpoints_told(nodes: Seq<NodeView>) -> Result<
    Map<u32, EndpointView>,
    AvalonErrorView,
>
    decreases nodes.len(),
{
    if nodes.len() == 0 {
        Ok(Map::empty())
    } else {
        match endpoints_told(nodes.drop_last()) {
            Err(e) => Err(e),
            Ok(m) => match make_endpoint(nodes.last().host, nodes.last().port) {
                Err(e) => Err(e),
                Ok(e) => Ok(m.insert(nodes.last().id, e)),
            },
        }
    }
}

/// The ids that an answer tells are up, if only once.
pub open spec fn up_told(nodes: Seq<NodeView>) -> Set<u32> {
    Set::new(
        |id: u32|
            exists|i: int| 0 <= i < nodes.len() && (#[trigger] nodes[i]).id == id && nodes[i].up,
    )
}

/// The cluster that an answer tells of, or what is wrong with the answer.
pub open spec fn cluster_told(r: ResponseView) -> Result<ClusterView, AvalonErrorView> {
    match endpoints_told(r.nodes) {
        Err(e) => Err(e),
        Ok(nodes) => if !nodes.contains_key(r.source_node_id) {
            Err(AvalonErrorView::SourceNodeMissing { id: r.source_node_id })
        } else {
            Ok(
                ClusterView {
                    cluster_id: id_of_halves(r.cluster_id_hi, r.cluster_id_lo) as u128,
                    client_chunk_size: r.client_chunk_size,
                    source_node_id: r.source_node_id,
                    nodes,
                    up: up_told(r.nodes),
                },
            )
        },
    }
}

/// A cluster without nodes, ids and chunks.
pub fn empty_cluster() -> (r: AvalonCluster)
    ensures
        r@ == (ClusterView {
            cluster_id: 0,
            client_chunk_size: 0,
            source_node_id: 0,
            nodes: Map::empty(),
            up: Set::empty(),
        }),
{
    let r = AvalonCluster {
        cluster_id: id_from_pair(0, 0),
        client_chunk_size: 0,
        source_node_id: 0,
        nodes: BTreeMap::new(),
        up: BTreeSet::new(),
    };
    assert(r@.nodes =~= Map::empty());
    r
}

impl AvalonCluster {
    /// The answer in which this cluster tells of itself.
    pub fn to_response(&self) -> (r: GetClusterResponse)
        ensures
            tells_of(r@, self@),
    {
        let (cluster_id_hi, cluster_id_lo) = id_to_pair(self.cluster_id);
        proof {
            lemma_ids_ordered();
        }
        let ids = ids_of(&self.nodes);
        let mut response_nodes: Vec<GetClusterResponseNode> = Vec::new();
        let mut i: usize = 0;
        while i < ids.len()
            invariant
                i <= ids.len(),
                ids@.to_set() =~= self.nodes@.dom(),
                response_nodes.len() == i,
                forall|j: int|
                    0 <= j < i ==> (#[trigger] response_nodes[j])@ =~= node_of(self@, ids[j]),
            decreases ids.len() - i,
        {
            proof {
                lemma_ids_ordered();
                assert(ids@.to_set().contains(ids[i as int]));
            }
            let id = ids[i];
            if let Some(node) = self.nodes.get(&id) {
                let response_node = GetClusterResponseNode {
                    id,
                    host: node.host.clone(),
                    port: node.port,
                    up: self.up.contains(&id),
                };
                response_nodes.push(response_node);
            }
            i = i + 1;
        }
        let r = GetClusterResponse {
            cluster_id_hi,
            cluster_id_lo,
            client_chunk_size: self.client_chunk_size,
            source_node_id: self.source_node_id,
            nodes: response_nodes,
        };
        proof {
            assert(node_ids(r@.nodes) =~= ids@) by {
                assert forall|j: int| 0 <= j < ids.len() implies node_ids(r@.nodes)[j] == ids[j] by {
                    assert(response_nodes[j]@ =~= node_of(self@, ids[j]));
                }
            }
            assert(self@.nodes.dom() =~= self.nodes@.dom());
            assert forall|j: int| 0 <= j < r@.nodes.len() implies #[trigger] r@.nodes[j] == node_of(
                self@,
                r@.nodes[j].id,
            ) by {
                assert(response_nodes[j]@ =~= node_of(self@, ids[j]));
            }
        }
        r
    }

    /// The cluster that an answer tells of.
    pub fn from_response(response: &GetClusterResponse) -> (r: Result<Self, AvalonError>)
        ensures
            match r {
                Ok(c) => cluster_told(response@) == Ok::<ClusterView, AvalonErrorView>(c@),
                Err(e) => cluster_told(response@) == Err::<ClusterView, AvalonErrorView>(e@),
            },
    {
        proof {
            lemma_ids_ordered();
        }
        let mut nodes: BTreeMap<u32, AvalonEndpoint> = BTreeMap::new();
        let mut up: BTreeSet<u32> = BTreeSet::new();
        let ghost told = response@.nodes;
        let mut i: usize = 0;
        assert(told.take(0) =~= Seq::empty());
        assert(endpoint_map(nodes@) =~= Map::empty());
        assert(up@ =~= up_told(told.take(0)));
        while i < response.nodes.len()
            invariant
                i <= response.nodes.len(),
                told == response@.nodes,
                endpoints_told(told.take(i as int)) == Ok::<
                    Map<u32, EndpointView>,
                    AvalonErrorView,
                >(endpoint_map(nodes@)),
                up@ =~= up_told(told.take(i as int)),
            decreases response.nodes.len() - i,
        {
            proof {
                lemma_ids_ordered();
            }
            let response_node = &response.nodes[i];
            let ghost next = told.take(i + 1);
            let ghost old_nodes = nodes@;
            let ghost old_up = up@;
            proof {
                assert(next.drop_last() =~= told.take(i as int));
                assert(next.last() == response_node@);
            }
            match AvalonEndpoint::new(response_node.host.as_str(), response_node.port) {
                Ok(endpoint) => {
                    nodes.insert(response_node.id, endpoint);
                    assert(endpoint_map(nodes@) =~= endpoint_map(old_nodes).insert(
                        response_node.id,
                        endpoint@,
                    ));
                },
                Err(e) => {
                    proof {
                        lemma_endpoints_told_prefix(told, i + 1);
                    }
                    return Err(e);
                },
            }
            if response_node.up {
                up.insert(response_node.id);
            }
            proof {
                lemma_up_told_push(next);
            }
            i = i + 1;
        }
        assert(told.take(i as int) =~= told);
        if !nodes.contains_key(&response.source_node_id) {
            return Err(AvalonError::SourceNodeMissing { id: response.source_node_id });
        }
        let r = AvalonCluster {
            cluster_id: id_from_pair(response.cluster_id_hi, response.cluster_id_lo),
            client_chunk_size: response.client_chunk_size,
            source_node_id: response.source_node_id,
            nodes,
            up,
        };
        Ok(r)
    }

    /// Where the chunk begins that holds `offset`.
    pub fn align_offset_to_chunk_boundary(&self, offset: u64) -> (r: u64)
        requires
            self.client_chunk_size > 0,
        ensures
            r == chunk_start(offset as int, self.client_chunk_size as int),
    {
        let client_chunk_size = self.client_chunk_size as u64;
        let chunk = offset / client_chunk_size;
        proof {
            lemma_chunk_start(offset as int, client_chunk_size as int);
        }
        chunk * client_chunk_size
    }
}

/// Where the chunk begins that holds `offset`, in chunks of `size` bytes.
pub open spec fn chunk_start(offset: int, size: int) -> int {
    offset - offset % size
}

/// The start of a chunk is what its number comes to.
proof fn lemma_chunk_start(offset: int, size: int)
    requires
        0 <= offset,
        0 < size,
    ensures
        (offset / size) * size == chunk_start(offset, size),
        0 <= chunk_start(offset, size) <= offset,
{
    vstd::arithmetic::div_mod::lemma_fundamental_div_mod(offset, size);
    vstd::arithmetic::div_mod::lemma_mod_bound(offset, size);
    vstd::arithmetic::mul::lemma_mul_is_commutative(offset / size, size);
    vstd::arithmetic::div_mod::lemma_mod_decreases(offset as nat, size as nat);
}

/// An offset lies in the chunk whose start it is aligned to; that start is a multiple of the
/// chunk size, and is aligned to itself.
pub proof fn law_aligned_offset(offset: int, size: int)
    requires
        0 <= offset,
        0 < size,
    ensures
        chunk_start(offset, size) <= offset < chunk_start(offset, size) + size,
        chunk_start(offset, size) % size == 0,
        chunk_start(chunk_start(offset, size), size) == chunk_start(offset, size),
{
    lemma_chunk_start(offset, size);
    vstd::arithmetic::div_mod::lemma_mod_bound(offset, size);
    vstd::arithmetic::div_mod::lemma_mod_multiples_basic(offset / size, size);
}

/// Offsets in one chunk are aligned to the same start.
pub proof fn law_chunk_shares_start(offset: int, size: int, other: int)
    requires
        0 <= offset,
        0 < size,
        chunk_start(offset, size) <= other < chunk_start(offset, size) + size,
    ensures
        chunk_start(other, size) == chunk_start(offset, size),
{
    lemma_chunk_start(offset, size);
    let q = offset / size;
    vstd::arithmetic::div_mod::lemma_fundamental_div_mod_converse(
        other,
        size,
        q,
        other - chunk_start(offset, size),
    );
}

/// Alignment keeps the order of offsets.
pub proof fn law_alignment_keeps_order(a: int, b: int, size: int)
    requires
        0 <= a <= b,
        0 < size,
    ensures
        chunk_start(a, size) <= chunk_start(b, size),
{
    lemma_chunk_start(a, size);
    lemma_chunk_start(b, size);
    vstd::arithmetic::div_mod::lemma_div_is_ordered(a, b, size);
    vstd::arithmetic::mul::lemma_mul_inequality(a / size, b / size, size);
}

/// What `endpoints_told` makes of nodes does not change after the first failure.
proof fn lemma_endpoints_told_prefix(nodes: Seq<NodeView>, n: int)
    requires
        0 <= n <= nodes.len(),
        endpoints_told(nodes.take(n)) is Err,
    ensures
        endpoints_told(nodes) == endpoints_told(nodes.take(n)),
    decreases nodes.len(),
{
    if n == nodes.len() {
        assert(nodes.take(n) =~= nodes);
    } else {
        assert(nodes.drop_last().take(n) =~= nodes.take(n));
        lemma_endpoints_told_prefix(nodes.drop_last(), n);
    }
}

/// The last node adds its id to those that are up where it is up.
proof fn lemma_up_told_push(nodes: Seq<NodeView>)
    requires
        nodes.len() > 0,
    ensures
        up_told(nodes) =~= if nodes.last().up {
            up_told(nodes.drop_last()).insert(nodes.last().id)
        } else {
            up_told(nodes.drop_last())
        },
{
    let init = nodes.drop_last();
    assert forall|id: u32| up_told(nodes).contains(id) == (up_told(init).contains(id) || (
    nodes.last().up && nodes.last().id == id)) by {
        if up_told(nodes).contains(id) {
            let i = choose|i: int|
                0 <= i < nodes.len() && (#[trigger] nodes[i]).id == id && nodes[i].up;
            if i < init.len() {
                assert(init[i] == nodes[i]);
            }
        }
        if up_told(init).contains(id) {
            let i = choose|i: int|
                0 <= i < init.len() && (#[trigger] init[i]).id == id && init[i].up;
            assert(nodes[i] == init[i]);
        }
        if nodes.last().up && nodes.last().id == id {
            assert(nodes[nodes.len() - 1].id == id);
        }
    }
}

/// The clusters that can be told of: their endpoints are valid, and both the source node and the
/// nodes that are up are among their nodes.
pub open spec fn valid_cluster(c: ClusterView) -> bool {
    &&& forall|id: u32| #[trigger] c.nodes.contains_key(id) ==> valid_endpoint(c.nodes[id])
    &&& c.nodes.contains_key(c.source_node_id)
    &&& c.up.subset_of(c.nodes.dom())
}

/// A cluster that an answer tells of is valid.
pub proof fn law_told_cluster_is_valid(r: ResponseView)
    ensures
        cluster_told(r) matches Ok(c) ==> valid_cluster(c),
{
    lemma_endpoints_told(r.nodes);
    if let Ok(c) = cluster_told(r) {
        assert forall|id: u32| #[trigger] c.nodes.contains_key(id) implies valid_endpoint(
            c.nodes[id],
        ) by {}
        assert forall|id: u32| c.up.contains(id) implies c.nodes.contains_key(id) by {
            let i = choose|i: int|
                0 <= i < r.nodes.len() && (#[trigger] r.nodes[i]).id == id && r.nodes[i].up;
            assert(node_ids(r.nodes)[i] == id);
        }
    }
}

/// What the endpoints told are: there is one for each id, of the last node that has it.
proof fn lemma_endpoints_told(nodes: Seq<NodeView>)
    ensures
        endpoints_told(nodes) is Ok <==> (forall|i: int|
            0 <= i < nodes.len() ==> make_endpoint((#[trigger] nodes[i]).host, nodes[i].port)
                is Ok),
        endpoints_told(nodes) matches Ok(m) ==> {
            &&& m.dom() =~= node_ids(nodes).to_set()
            &&& forall|id: u32| #[trigger] m.contains_key(id) ==> valid_endpoint(m[id])
            &&& node_ids(nodes).no_duplicates() ==> forall|i: int|
                0 <= i < nodes.len() ==> m[(#[trigger] nodes[i]).id] == (EndpointView {
                    host: nodes[i].host,
                    port: nodes[i].port,
                })
        },
    decreases nodes.len(),
{
    let ids = node_ids(nodes);
    if nodes.len() > 0 {
        let init = nodes.drop_last();
        let last = nodes.last();
        lemma_endpoints_told(init);
        assert(ids =~= node_ids(init).push(last.id));
        assert(ids.to_set() =~= node_ids(init).to_set().insert(last.id)) by {
            assert forall|id: u32| ids.to_set().contains(id) implies node_ids(
                init,
            ).to_set().insert(last.id).contains(id) by {
                let i = choose|i: int| 0 <= i < ids.len() && ids[i] == id;
                if i < init.len() {
                    assert(node_ids(init)[i] == id);
                }
            }
            assert forall|id: u32| node_ids(init).to_set().insert(last.id).contains(
                id,
            ) implies ids.to_set().contains(id) by {
                if id == last.id {
                    assert(ids[ids.len() - 1] == id);
                } else {
                    let i = choose|i: int| 0 <= i < node_ids(init).len() && node_ids(init)[i] == id;
                    assert(ids[i] == id);
                }
            }
        }
        assert(forall|i: int| 0 <= i < init.len() ==> init[i] == #[trigger] nodes[i]);
        assert(nodes[nodes.len() - 1] == last);
        if forall|i: int|
            0 <= i < nodes.len() ==> make_endpoint((#[trigger] nodes[i]).host, nodes[i].port)
                is Ok {
            assert forall|i: int| 0 <= i < init.len() implies make_endpoint(
                (#[trigger] init[i]).host,
                init[i].port,
            ) is Ok by {
                assert(init[i] == nodes[i]);
            }
        }
        if let Ok(m) = endpoints_told(nodes) {
            assert forall|i: int| 0 <= i < nodes.len() implies make_endpoint(
                (#[trigger] nodes[i]).host,
                nodes[i].port,
            ) is Ok by {
                if i < init.len() {
                    assert(init[i] == nodes[i]);
                }
            }
            if ids.no_duplicates() {
                assert(node_ids(init).no_duplicates()) by {
                    assert forall|i: int, j: int|
                        0 <= i < init.len() && 0 <= j < init.len() && i != j implies node_ids(
                        init,
                    )[i] != node_ids(init)[j] by {
                        assert(ids[i] != ids[j]);
                    }
                }
                assert forall|i: int| 0 <= i < nodes.len() implies m[(#[trigger] nodes[i]).id] == (
                EndpointView { host: nodes[i].host, port: nodes[i].port }) by {
                    if i < init.len() {
                        assert(init[i] == nodes[i]);
                        assert(ids[i] != ids[nodes.len() - 1]);
                    }
                }
            }
        }
    } else {
        assert(ids =~= Seq::empty());
    }
}

/// Ids that ascend are all different.
proof fn lemma_ascending_distinct(ids: Seq<u32>)
    requires
        ascending(ids),
    ensures
        ids.no_duplicates(),
{
    assert forall|i: int, j: int|
        0 <= i < ids.len() && 0 <= j < ids.len() && i != j implies ids[i] != ids[j] by {
        if i < j {
            assert(ids[i] < ids[j]);
        } else {
            assert(ids[j] < ids[i]);
        }
    }
}

/// A valid cluster is what its own answer tells of.
pub proof fn law_cluster_round_trip(c: ClusterView, r: ResponseView)
    requires
        valid_cluster(c),
        tells_of(r, c),
    ensures
        cluster_told(r) == Ok::<ClusterView, AvalonErrorView>(c),
{
    assert(0 <= id_of_halves(r.cluster_id_hi, r.cluster_id_lo) <= u128::MAX);
    lemma_endpoints_told(r.nodes);
    lemma_ascending_distinct(node_ids(r.nodes));
    assert forall|i: int| 0 <= i < r.nodes.len() implies c.nodes.contains_key(
        (#[trigger] r.nodes[i]).id,
    ) && make_endpoint(r.nodes[i].host, r.nodes[i].port) is Ok by {
        assert(node_ids(r.nodes)[i] == r.nodes[i].id);
        assert(node_ids(r.nodes).to_set().contains(r.nodes[i].id));
        assert(c.nodes.contains_key(r.nodes[i].id));
    }
    let m = endpoints_told(r.nodes)->Ok_0;
    assert(m =~= c.nodes) by {
        assert forall|id: u32| #[trigger] m.contains_key(id) implies m[id] == c.nodes[id] by {
            let i = choose|i: int| 0 <= i < node_ids(r.nodes).len() && node_ids(r.nodes)[i] == id;
            assert(r.nodes[i] == node_of(c, id));
            assert(m[r.nodes[i].id] == c.nodes[id]);
        }
    }
    assert(up_told(r.nodes) =~= c.up) by {
        assert forall|id: u32| c.up.contains(id) implies up_told(r.nodes).contains(id) by {
            assert(node_ids(r.nodes).to_set().contains(id));
            let i = choose|i: int| 0 <= i < node_ids(r.nodes).len() && node_ids(r.nodes)[i] == id;
            assert(r.nodes[i] == node_of(c, id));
        }
        assert forall|id: u32| up_told(r.nodes).contains(id) implies c.up.contains(id) by {
            let i = choose|i: int|
                0 <= i < r.nodes.len() && (#[trigger] r.nodes[i]).id == id && r.nodes[i].up;
            assert(r.nodes[i] == node_of(c, id));
        }
    }
}

/// An answer that lists its nodes by ascending id is the one in which the cluster that it tells
/// of tells of itself.
pub proof fn law_response_round_trip(r: ResponseView)
    requires
        ascending(node_ids(r.nodes)),
    ensures
        cluster_told(r) matches Ok(c) ==> tells_of(r, c),
{
    assert(0 <= id_of_halves(r.cluster_id_hi, r.cluster_id_lo) <= u128::MAX);
    lemma_endpoints_told(r.nodes);
    let ids = node_ids(r.nodes);
    lemma_ascending_distinct(ids);
    if let Ok(c) = cluster_told(r) {
        assert forall|i: int| 0 <= i < r.nodes.len() implies #[trigger] r.nodes[i] == node_of(
            c,
            r.nodes[i].id,
        ) by {
            let n = r.nodes[i];
            assert(c.nodes[n.id] == EndpointView { host: n.host, port: n.port });
            assert(c.up.contains(n.id) == n.up) by {
                if c.up.contains(n.id) {
                    let j = choose|j: int|
                        0 <= j < r.nodes.len() && (#[trigger] r.nodes[j]).id == n.id
                            && r.nodes[j].up;
                    assert(ids[i] == n.id && ids[j] == n.id);
                }
            }
        }
    }
}

/// A cluster tells of itself in one way.
pub proof fn law_one_response(r1: ResponseView, r2: ResponseView, c: ClusterView)
    requires
        tells_of(r1, c),
        tells_of(r2, c),
    ensures
        r1 == r2,
{
    let ids1 = node_ids(r1.nodes);
    let ids2 = node_ids(r2.nodes);
    lemma_ascending_distinct(ids1);
    lemma_ascending_distinct(ids2);
    ids1.unique_seq_to_set();
    ids2.unique_seq_to_set();
    assert(ids1.to_set() =~= ids2.to_set());
    lemma_same_ascending(ids1, ids2, ids1.len() as int);
    assert(r1.nodes =~= r2.nodes) by {
        assert forall|i: int| 0 <= i < r1.nodes.len() implies r1.nodes[i] == r2.nodes[i] by {
            assert(ids1[i] == ids2[i]);
            assert(r1.nodes[i] == node_of(c, r1.nodes[i].id));
            assert(r2.nodes[i] == node_of(c, r2.nodes[i].id));
        }
    }
    assert(r1.cluster_id_hi == r2.cluster_id_hi && r1.cluster_id_lo == r2.cluster_id_lo);
    assert(r1 =~= r2);
}

/// Two ascending sequences of the same ids agree up to `n`.
proof fn lemma_same_ascending(ids1: Seq<u32>, ids2: Seq<u32>, n: int)
    requires
        ascending(ids1),
        ascending(ids2),
        ids1.to_set() =~= ids2.to_set(),
        ids1.len() == ids2.len(),
        0 <= n <= ids1.len(),
    ensures
        forall|i: int| 0 <= i < n ==> ids1[i] == ids2[i],
    decreases n,
{
    if n > 0 {
        lemma_same_ascending(ids1, ids2, n - 1);
        let k = n - 1;
        assert(ids1.to_set().contains(ids1[k]));
        assert(ids2.to_set().contains(ids1[k]));
        let j = choose|j: int| 0 <= j < ids2.len() && ids2[j] == ids1[k];
        assert(ids2.to_set().contains(ids2[k]));
        assert(ids1.to_set().contains(ids2[k]));
        let l = choose|l: int| 0 <= l < ids1.len() && ids1[l] == ids2[k];
        if j < k {
            assert(ids1[j] == ids2[j]);
            assert(ids1[j] < ids1[k]);
        } else if l < k {
            assert(ids1[l] == ids2[l]);
            assert(ids2[l] < ids2[k]);
        } else {
            if j > k {
                assert(ids2[k] < ids2[j]);
            }
            if l > k {
                assert(ids1[k] < ids1[l]);
            }
        }
    }
}

} // verus!
