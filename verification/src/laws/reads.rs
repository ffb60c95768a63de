//! Reads: which bytes a read with given options streams, and what is told of them.

use crate::clients::{
    fetch_chunk_result, law_fetch_stays_in_chunk, plan_fetch_from, FetchChunkRequest,
    FetchChunkResponse, FetchChunkResult, FetchPlan,
};
use crate::cluster::AvalonCluster;
use crate::object_store::{
    plan_get, reports_fallback, start_get, stream_step, GetOptions, GetPlan, GetRange, GetStart,
    StoreError, StreamStep,
};
use crate::status::Status;
use core::ops::Range;
use vstd::prelude::*;

verus! {

/// A read that is not refused asks for exactly the bytes that its options name: none of them for
/// the head, those of a bounded range, those behind an offset, and all of them else. It goes past
/// the cluster where it names a suffix, and only there.
pub proof fn law_plan_is_what_was_asked(options: &GetOptions, r: Result<GetPlan, StoreError>)
    requires
        call_ensures(plan_get, (options,), r),
    ensures
        r matches Ok(GetPlan::Fetch { range }) ==> {
            &&& options.head ==> range.start == 0 && range.end == 0
            &&& !options.head && options.range is None ==> range.start == 0 && range.end == u64::MAX
            &&& !options.head ==> (options.range matches Some(GetRange::Bounded(asked))
                ==> range.start == asked.start && range.end == asked.end)
            &&& !options.head ==> (options.range matches Some(GetRange::Offset(start))
                ==> range.start == start && range.end == u64::MAX)
        },
        r matches Ok(GetPlan::Fallback { reason }) <==> options.version is None && !options.head
            && (options.range matches Some(GetRange::Suffix(_))),
        r matches Ok(GetPlan::Fallback { reason }) ==> reason@
            == "suffix ranges are not supported."@,
{
}

/// A read is refused where it names a version, and else where it names no byte of a bounded range
/// or begins behind the last offset; and nowhere else.
pub proof fn law_reads_refused(options: &GetOptions, r: Result<GetPlan, StoreError>)
    requires
        call_ensures(plan_get, (options,), r),
    ensures
        r is Err <==> {
            ||| options.version is Some
            ||| !options.head && (options.range matches Some(GetRange::Bounded(asked))
                && asked.start >= asked.end)
            ||| !options.head && (options.range matches Some(GetRange::Offset(start)) && start
                == u64::MAX)
        },
        options.version is Some ==> (r matches Err(StoreError::NotSupported { reason }) && reason@
            == "object versioning is not supported."@),
        r is Err && options.version is None ==> (r matches Err(StoreError::Generic { reason }) && (
        if options.range matches Some(GetRange::Offset(_)) {
            reason@ == "invalid offset range."@
        } else {
            reason@ == "invalid bounded range."@
        })),
{
}

/// The lesser of two numbers.
pub open spec fn lesser(a: int, b: int) -> int {
    if a < b {
        a
    } else {
        b
    }
}

/// The bytes of an object that the options of a read name.
pub open spec fn named_bytes(options: GetOptions, object: Seq<u8>) -> Seq<u8> {
    let len = object.len() as int;
    if options.head {
        Seq::empty()
    } else {
        match options.range {
            Some(GetRange::Bounded(asked)) => object.subrange(
                lesser(asked.start as int, len),
                lesser(asked.end as int, len),
            ),
            Some(GetRange::Offset(start)) => object.skip(lesser(start as int, len)),
            _ => object,
        }
    }
}

/// One fetch of a read: the range that is left, what is asked of a node, what the node answers,
/// what is made of that, and what the stream then gives.
pub struct Fetch {
    pub range: Range<u64>,
    pub plan: FetchPlan,
    pub response: FetchChunkResponse,
    pub result: FetchChunkResult,
    pub step: StreamStep,
}

/// A node that holds `object` answers a request with bytes of it from the offset on, no more of
/// them than it is asked for, and tells how many bytes the object has.
pub open spec fn answers(
    object: Seq<u8>,
    request: FetchChunkRequest,
    response: FetchChunkResponse,
) -> bool {
    let at = lesser(request.offset as int, object.len() as int);
    &&& response.object_size == object.len()
    &&& response.payload.len() <= request.length
    &&& at + response.payload.len() <= object.len()
    &&& response.payload@ =~= object.subrange(at, at + response.payload.len())
}

/// The calls of one fetch of the object that is named `prefix` and `path`, where the nodes hold
/// `objects` by name.
pub open spec fn fetches(
    objects: spec_fn(Seq<char>, Seq<char>) -> Seq<u8>,
    cluster: &AvalonCluster,
    prefix: &str,
    path: &str,
    addr: &str,
    end: u64,
    f: Fetch,
) -> bool {
    &&& exists|node: Option<u32>|
        call_ensures(
            plan_fetch_from,
            (node, cluster, prefix, path, f.range),
            Ok::<FetchPlan, Status>(f.plan),
        )
    &&& answers(
        objects(f.plan.request.prefix@, f.plan.request.path@),
        f.plan.request,
        f.response,
    )
    &&& call_ensures(
        fetch_chunk_result,
        (Ok::<FetchChunkResponse, Status>(f.response), addr, f.range.start),
        Ok::<FetchChunkResult, Status>(f.result),
    )
    &&& call_ensures(
        stream_step,
        (Some(Ok::<FetchChunkResult, Status>(f.result)), end),
        f.step,
    )
}

/// A step of a stream leaves `range` to be fetched.
pub open spec fn leaves(step: StreamStep, range: Range<u64>) -> bool {
    step matches StreamStep::More { data, next } && next == range
}

/// The fetches of a stream to its end: each asks for the range that the one before left.
pub open spec fn is_stream(
    objects: spec_fn(Seq<char>, Seq<char>) -> Seq<u8>,
    cluster: &AvalonCluster,
    prefix: &str,
    path: &str,
    addr: &str,
    end: u64,
    fs: Seq<Fetch>,
) -> bool {
    &&& fs.len() > 0
    &&& forall|k: int|
        0 <= k < fs.len() ==> fetches(objects, cluster, prefix, path, addr, end, #[trigger] fs[k])
    &&& forall|k: int|
        0 < k < fs.len() ==> leaves(fs[k - 1].step, (#[trigger] fs[k]).range)
    &&& fs.last().step is Last
}

/// The bytes that a step of a stream gives.
pub open spec fn bytes_of(step: StreamStep) -> Seq<u8> {
    match step {
        StreamStep::Last { data } => data@,
        StreamStep::More { data, next } => data@,
        _ => Seq::empty(),
    }
}

/// All bytes that a stream gives.
pub open spec fn stream_bytes(fs: Seq<Fetch>) -> Seq<u8> {
    fs.map_values(|f: Fetch| bytes_of(f.step)).flatten()
}

/// One fetch gives bytes of the object from the start of its range on; it leaves what is behind
/// them, or nothing where the object or the read ends there.
spec fn gives_bytes(object: Seq<u8>, end: u64, f: Fetch) -> bool {
    let at = lesser(f.range.start as int, object.len() as int);
    let data = bytes_of(f.step);
    &&& at + data.len() <= object.len()
    &&& data.len() > 0 ==> at + data.len() <= end
    &&& data =~= object.subrange(at, at + data.len())
    &&& match f.step {
        StreamStep::Last { .. } => at + data.len() == object.len() || at + data.len() >= end,
        StreamStep::More { data: _, next } => {
            &&& next.start == at + data.len()
            &&& next.end == end
            &&& next.start < end
        },
        _ => false,
    }
}

/// The calls of one fetch give bytes of the object that was named.
proof fn lemma_fetch(
    objects: spec_fn(Seq<char>, Seq<char>) -> Seq<u8>,
    cluster: &AvalonCluster,
    prefix: &str,
    path: &str,
    addr: &str,
    end: u64,
    f: Fetch,
)
    requires
        cluster.client_chunk_size > 0,
        f.range.start <= f.range.end == end,
        fetches(objects, cluster, prefix, path, addr, end, f),
    ensures
        gives_bytes(objects(prefix@, path@), end, f),
        f.result.data@ == f.response.payload@,
        f.result.offset == f.range.start,
        f.result.object_size == objects(prefix@, path@).len(),
        f.result.object_mtime == f.response.object_mtime,
{
    law_fetch_stays_in_chunk(
        f.range.start as int,
        f.range.end as int,
        cluster.client_chunk_size as int,
    );
}

/// What fetches in turn give: the object's own bytes, each once and in order.
proof fn lemma_pieces(object: Seq<u8>, end: u64, fs: Seq<Fetch>)
    requires
        fs.len() > 0,
        forall|k: int| 0 <= k < fs.len() ==> gives_bytes(object, end, #[trigger] fs[k]),
        forall|k: int|
            0 < k < fs.len() ==> leaves(fs[k - 1].step, (#[trigger] fs[k]).range),
        fs.last().step is Last,
        fs[0].range.start <= end,
    ensures
        stream_bytes(fs) =~= object.subrange(
            lesser(fs[0].range.start as int, object.len() as int),
            lesser(end as int, object.len() as int),
        ),
    decreases fs.len(),
{
    let pieces = fs.map_values(|f: Fetch| bytes_of(f.step));
    let rest = fs.drop_first();
    assert(gives_bytes(object, end, fs[0]));
    assert(pieces.drop_first() =~= rest.map_values(|f: Fetch| bytes_of(f.step)));
    assert(pieces.flatten() == pieces[0] + pieces.drop_first().flatten());
    assert(pieces[0] == bytes_of(fs[0].step));
    if fs.len() == 1 {
        assert(pieces.drop_first() =~= Seq::empty());
        assert(pieces.drop_first().flatten() =~= Seq::empty());
        assert(fs.last() == fs[0]);
    } else {
        assert forall|k: int| 0 <= k < rest.len() implies gives_bytes(
            object,
            end,
            #[trigger] rest[k],
        ) by {
            assert(rest[k] == fs[k + 1]);
        }
        assert forall|k: int| 0 < k < rest.len() implies leaves(
            rest[k - 1].step,
            (#[trigger] rest[k]).range,
        ) by {
            assert(rest[k] == fs[k + 1]);
            assert(rest[k - 1] == fs[k]);
        }
        assert(rest.last() == fs.last());
        assert(rest[0] == fs[1]);
        assert(leaves(fs[0].step, fs[1].range));
        lemma_pieces(object, end, rest);
    }
}

/// What a stream gives: the object's own bytes, each once and in order, from where it begins up to
/// the end of the read or of the object.
proof fn lemma_stream(
    objects: spec_fn(Seq<char>, Seq<char>) -> Seq<u8>,
    cluster: &AvalonCluster,
    prefix: &str,
    path: &str,
    addr: &str,
    end: u64,
    fs: Seq<Fetch>,
)
    requires
        cluster.client_chunk_size > 0,
        is_stream(objects, cluster, prefix, path, addr, end, fs),
        fs[0].range.start <= fs[0].range.end == end,
    ensures
        stream_bytes(fs) =~= objects(prefix@, path@).subrange(
            lesser(fs[0].range.start as int, objects(prefix@, path@).len() as int),
            lesser(end as int, objects(prefix@, path@).len() as int),
        ),
{
    let object = objects(prefix@, path@);
    assert forall|k: int| 0 <= k < fs.len() implies gives_bytes(object, end, #[trigger] fs[k]) by {
        lemma_stream_fetch(objects, cluster, prefix, path, addr, end, fs, k);
    }
    lemma_pieces(object, end, fs);
}

/// Every fetch of a stream gives bytes of the object that was named.
proof fn lemma_stream_fetch(
    objects: spec_fn(Seq<char>, Seq<char>) -> Seq<u8>,
    cluster: &AvalonCluster,
    prefix: &str,
    path: &str,
    addr: &str,
    end: u64,
    fs: Seq<Fetch>,
    k: int,
)
    requires
        cluster.client_chunk_size > 0,
        is_stream(objects, cluster, prefix, path, addr, end, fs),
        fs[0].range.start <= fs[0].range.end == end,
        0 <= k < fs.len(),
    ensures
        fs[k].range.start <= fs[k].range.end == end,
        gives_bytes(objects(prefix@, path@), end, fs[k]),
    decreases k,
{
    if k > 0 {
        lemma_stream_fetch(objects, cluster, prefix, path, addr, end, fs, k - 1);
        assert(leaves(fs[k - 1].step, fs[k].range));
    }
    assert(fetches(objects, cluster, prefix, path, addr, end, fs[k]));
    lemma_fetch(objects, cluster, prefix, path, addr, end, fs[k]);
}

/// A read gives the bytes that its options name, of the object that it names: whatever the chunk
/// size is, and however few bytes the nodes give at once.
pub proof fn law_read_gives_named_bytes(
    objects: spec_fn(Seq<char>, Seq<char>) -> Seq<u8>,
    cluster: &AvalonCluster,
    prefix: &str,
    path: &str,
    addr: &str,
    options: &GetOptions,
    range: Range<u64>,
    fs: Seq<Fetch>,
)
    requires
        cluster.client_chunk_size > 0,
        call_ensures(
            plan_get,
            (options,),
            Ok::<GetPlan, StoreError>(GetPlan::Fetch { range }),
        ),
        is_stream(objects, cluster, prefix, path, addr, range.end, fs),
        fs[0].range == range,
    ensures
        stream_bytes(fs) =~= named_bytes(*options, objects(prefix@, path@)),
{
    lemma_fetch(objects, cluster, prefix, path, addr, range.end, fs[0]);
    lemma_stream(objects, cluster, prefix, path, addr, range.end, fs);
}

/// What is told of a read fits the bytes that it gives: the size is that of the object, the range
/// is that of the bytes, and the time is the one that the node told. The stream begins with what
/// was fetched.
pub proof fn law_read_tells_its_range(
    objects: spec_fn(Seq<char>, Seq<char>) -> Seq<u8>,
    cluster: &AvalonCluster,
    prefix: &str,
    path: &str,
    addr: &str,
    options: &GetOptions,
    range: Range<u64>,
    fs: Seq<Fetch>,
    started: GetStart,
)
    requires
        cluster.client_chunk_size > 0,
        call_ensures(
            plan_get,
            (options,),
            Ok::<GetPlan, StoreError>(GetPlan::Fetch { range }),
        ),
        is_stream(objects, cluster, prefix, path, addr, range.end, fs),
        fs[0].range == range,
        call_ensures(
            start_get,
            (range, Ok::<FetchChunkResult, String>(fs[0].result)),
            started,
        ),
    ensures
        started matches GetStart::Serve { info, first } && {
            let object = objects(prefix@, path@);
            &&& first == fs[0].result
            &&& first.data@ =~= fs[0].response.payload@
            &&& first.offset == range.start
            &&& info.size == object.len()
            &&& info.last_modified == fs[0].response.object_mtime
            &&& info.range.start == range.start
            &&& info.range.start <= info.range.end ==> info.range.end <= object.len()
                && object.subrange(info.range.start as int, info.range.end as int) =~= stream_bytes(
                fs,
            )
            &&& info.range.start > info.range.end ==> stream_bytes(fs) =~= Seq::<u8>::empty()
        },
{
    lemma_fetch(objects, cluster, prefix, path, addr, range.end, fs[0]);
    lemma_stream(objects, cluster, prefix, path, addr, range.end, fs);
}

/// Whatever was fetched first is what a stream begins with; and the range that is told begins where
/// the read does and ends with the read or with the object, whichever comes first.
pub proof fn law_start_tells_what_was_fetched(
    range: Range<u64>,
    fetched: FetchChunkResult,
    started: GetStart,
)
    requires
        call_ensures(start_get, (range, Ok::<FetchChunkResult, String>(fetched)), started),
    ensures
        started matches GetStart::Serve { info, first } && {
            &&& first == fetched
            &&& info.last_modified == fetched.object_mtime
            &&& info.size == fetched.object_size
            &&& info.range.start == range.start
            &&& info.range.end == lesser(range.end as int, fetched.object_size as int)
        },
{
}

/// A stream gives all that was fetched. It goes on right behind that, up to the end of the read;
/// and it does not go on exactly where the object or the read ends there.
pub proof fn law_stream_goes_on_behind(fetched: FetchChunkResult, end: u64, step: StreamStep)
    requires
        call_ensures(
            stream_step,
            (Some(Ok::<FetchChunkResult, Status>(fetched)), end),
            step,
        ),
    ensures
        ({
            let behind = fetched.offset + fetched.data.len();
            if behind < fetched.object_size && behind < end {
                step matches StreamStep::More { data, next } && data@ == fetched.data@ && next.start
                    == behind && next.end == end
            } else {
                step matches StreamStep::Last { data } && data@ == fetched.data@
            }
        }),
{
}

/// A stream ends after an error, and tells it; a stream that has ended gives nothing.
pub proof fn law_stream_ends(status: Status, end: u64, failed: StreamStep, finished: StreamStep)
    requires
        call_ensures(
            stream_step,
            (Some(Err::<FetchChunkResult, Status>(status)), end),
            failed,
        ),
        call_ensures(
            stream_step,
            (None::<std::result::Result<FetchChunkResult, Status>>, end),
            finished,
        ),
    ensures
        failed matches StreamStep::Failed { error: StoreError::Generic { reason } } && reason@
            =~= "fetch_chunk error: "@ + status.message@ + "."@,
        finished is Finished,
{
}

/// A read whose first fetch fails goes past the cluster, and says why.
pub proof fn law_failed_fetch_goes_past(range: Range<u64>, error: String, started: GetStart)
    requires
        call_ensures(start_get, (range, Err::<FetchChunkResult, String>(error)), started),
    ensures
        started matches GetStart::Fallback { reason } && reason@ =~= "avalon fetch error: "@
            + error@,
{
}

/// Of any thousand reads past the cluster that follow on each other, one is reported, and the first
/// of all is.
pub proof fn law_one_report_in_a_thousand(n: u64, reported: Seq<bool>)
    requires
        n + reported.len() <= u64::MAX,
        reported.len() == 1000,
        forall|k: int|
            0 <= k < 1000 ==> call_ensures(
                reports_fallback,
                ((n + k) as u64,),
                #[trigger] reported[k],
            ),
    ensures
        n == 0 ==> reported[0],
        exists|k: int| 0 <= k < 1000 && #[trigger] reported[k],
        forall|k: int, l: int|
            0 <= k < 1000 && 0 <= l < 1000 && #[trigger] reported[k] && #[trigger] reported[l]
                ==> k == l,
{
    let k = if n % 1000 == 0 {
        0
    } else {
        1000 - n as int % 1000
    };
    assert(((n + k) as u64) % 1000 == 0);
    assert(reported[k]);
    assert(n == 0 ==> reported[0]);
}

} // verus!
