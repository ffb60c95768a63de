//! Reading objects through the cluster: what a read asks for, and how its answer is put together.

use crate::clients::{fetch_length, law_fetch_stays_in_chunk, FetchChunkResult};
use crate::status::Status;
use crate::timestamp::utc_seconds;
use core::ops::Range;
use vstd::prelude::*;

verus! {

/// The part of an object that a read asks for.
#[derive(Debug, PartialEq)]
pub enum GetRange {
    /// The bytes from a start up to an end.
    Bounded(Range<u64>),
    /// The bytes from a start on.
    Offset(u64),
    /// So many of the last bytes.
    Suffix(u64),
}

/// What a read asks for.
#[derive(Debug, PartialEq)]
pub struct GetOptions {
    pub version: Option<String>,
    pub head: bool,
    pub range: Option<GetRange>,
}

/// Why a read fails.
#[derive(Clone, Debug, PartialEq)]
pub enum StoreError {
    /// What was asked for is not offered.
    NotSupported { reason: String },
    /// Any other failure.
    Generic { reason: String },
}

/// How a read is done.
#[derive(Debug, PartialEq)]
pub enum GetPlan {
    /// Through the cluster, with these bytes.
    Fetch { range: Range<u64> },
    /// Past the cluster, and why.
    Fallback { reason: String },
}

/// How a read goes on after its first bytes were asked for.
#[derive(Debug)]
pub enum GetStart {
    /// The answer to the read, and the first bytes of its stream.
    Serve { info: ObjectInfo, first: FetchChunkResult },
    /// Past the cluster, and why.
    Fallback { reason: String },
}

/// What is told of an object that is read.
#[derive(Debug, PartialEq)]
pub struct ObjectInfo {
    /// When the object last changed, in seconds since the epoch.
    pub last_modified: i64,
    /// How many bytes it has.
    pub size: u64,
    /// Which of its bytes the stream gives.
    pub range: Range<u64>,
}

/// What a stream gives next.
#[derive(Debug, PartialEq)]
pub enum StreamStep {
    /// Nothing more.
    Finished,
    /// An error, and then nothing more.
    Failed { error: StoreError },
    /// Bytes, and then nothing more.
    Last { data: Vec<u8> },
    /// Bytes, and then those that are asked for with this range.
    More { data: Vec<u8>, next: Range<u64> },
}

/// How a read is done, or why it fails.
pub open spec fn plans(options: GetOptions, r: Result<GetPlan, StoreError>) -> bool {
    if options.version is Some {
        r matches Err(StoreError::NotSupported { reason }) && reason@
            == "object versioning is not supported."@
    } else if options.head {
        r matches Ok(GetPlan::Fetch { range }) && range.start == 0 && range.end == 0
    } else {
        match options.range {
            None => r matches Ok(GetPlan::Fetch { range }) && range.start == 0 && range.end
                == u64::MAX,
            Some(GetRange::Bounded(asked)) => if asked.start >= asked.end {
                r matches Err(StoreError::Generic { reason }) && reason@ == "invalid bounded range."@
            } else {
                r matches Ok(GetPlan::Fetch { range }) && range.start == asked.start && range.end
                    == asked.end
            },
            Some(GetRange::Offset(start)) => if start == u64::MAX {
                r matches Err(StoreError::Generic { reason }) && reason@ == "invalid offset range."@
            } else {
                r matches Ok(GetPlan::Fetch { range }) && range.start == start && range.end
                    == u64::MAX
            },
            Some(GetRange::Suffix(_)) => r matches Ok(GetPlan::Fallback { reason }) && reason@
                == "suffix ranges are not supported."@,
        }
    }
}

/// How a read is done.
pub fn plan_get(options: &GetOptions) -> (r: Result<GetPlan, StoreError>)
    ensures
        plans(*options, r),
        r matches Ok(GetPlan::Fetch { range }) ==> range.start <= range.end && (range.start
            < range.end <==> !options.head),
{
    if options.version.is_some() {
        return Err(
            StoreError::NotSupported { reason: "object versioning is not supported.".to_string() },
        );
    }
    if options.head {
        return Ok(GetPlan::Fetch { range: Range { start: 0, end: 0 } });
    }
    match &options.range {
        None => Ok(GetPlan::Fetch { range: Range { start: 0, end: u64::MAX } }),
        Some(GetRange::Bounded(range)) => {
            if range.start >= range.end {
                return Err(StoreError::Generic { reason: "invalid bounded range.".to_string() });
            }
            Ok(GetPlan::Fetch { range: Range { start: range.start, end: range.end } })
        },
        Some(GetRange::Offset(start)) => {
            if *start == u64::MAX {
                return Err(StoreError::Generic { reason: "invalid offset range.".to_string() });
            }
            Ok(GetPlan::Fetch { range: Range { start: *start, end: u64::MAX } })
        },
        Some(GetRange::Suffix(_)) => Ok(
            GetPlan::Fallback { reason: "suffix ranges are not supported.".to_string() },
        ),
    }
}

/// How a read of `range` goes on after its first bytes were asked for. An error is given as it is
/// shown.
pub fn start_get(range: Range<u64>, fetched: Result<FetchChunkResult, String>) -> (r: GetStart)
    ensures
        match fetched {
            Err(error) => r matches GetStart::Fallback { reason } && reason@
                == "avalon fetch error: "@ + error@,
            Ok(result) => {
                &&& r matches GetStart::Serve { info, first }
                &&& first == result
                &&& info.last_modified == result.object_mtime
                &&& info.size == result.object_size
                &&& info.range.start == range.start
                &&& info.range.end == if range.end <= result.object_size {
                    range.end
                } else {
                    result.object_size
                }
            },
        },
{
    match fetched {
        Err(error) => {
            let mut reason = String::new();
            reason.append("avalon fetch error: ");
            reason.append(error.as_str());
            GetStart::Fallback { reason }
        },
        Ok(result) => {
            let last_modified: i64 = match utc_seconds(result.object_mtime as i64) {
                Some(secs) => secs,
                None => 0,
            };
            let end: u64 = if range.end <= result.object_size {
                range.end
            } else {
                result.object_size
            };
            let info = ObjectInfo {
                last_modified,
                size: result.object_size,
                range: Range { start: range.start, end },
            };
            GetStart::Serve { info, first: result }
        },
    }
}

/// Where a stream goes on behind `len` bytes at `offset`: nowhere at the end of the object or of
/// the read.
pub open spec fn goes_on_at(offset: int, len: int, object_size: int, end: int) -> Option<int> {
    if offset + len >= object_size || offset + len >= end {
        None
    } else {
        Some(offset + len)
    }
}

/// What a stream of the bytes up to `end` gives next, after what was fetched for it last.
pub fn stream_step(state: Option<Result<FetchChunkResult, Status>>, end: u64) -> (r: StreamStep)
    requires
        state matches Some(Ok(result)) ==> result.offset + result.data.len() <= u64::MAX,
    ensures
        match state {
            None => r is Finished,
            Some(Err(status)) => r matches StreamStep::Failed {
                error: StoreError::Generic { reason },
            } && reason@ == "fetch_chunk error: "@ + status@.message + "."@,
            Some(Ok(result)) => match goes_on_at(
                result.offset as int,
                result.data.len() as int,
                result.object_size as int,
                end as int,
            ) {
                None => r matches StreamStep::Last { data } && data == result.data,
                Some(start) => r matches StreamStep::More { data, next } && data == result.data
                    && next.start == start && next.end == end,
            },
        },
{
    match state {
        None => StreamStep::Finished,
        Some(Err(status)) => {
            let mut reason = String::new();
            reason.append("fetch_chunk error: ");
            reason.append(status.message.as_str());
            reason.append(".");
            StreamStep::Failed { error: StoreError::Generic { reason } }
        },
        Some(Ok(result)) => {
            let next_start: u64 = result.offset + result.data.len() as u64;
            if next_start >= result.object_size || next_start >= end {
                StreamStep::Last { data: result.data }
            } else {
                StreamStep::More { data: result.data, next: Range { start: next_start, end } }
            }
        },
    }
}

/// Whether a read past the cluster is reported, after so many earlier ones.
pub fn reports_fallback(earlier: u64) -> (r: bool)
    ensures
        r == (earlier % 1000 == 0),
{
    earlier % 1000 == 0
}

/// The smaller of two numbers.
pub open spec fn least(a: int, b: int) -> int {
    if a <= b {
        a
    } else {
        b
    }
}

/// What a node gives of an object that is asked for `length` bytes from `start` on: those of them
/// that the object has.
pub open spec fn bytes_given(object: Seq<u8>, start: int, length: int) -> Seq<u8> {
    object.subrange(
        least(start, object.len() as int),
        least(start + length, object.len() as int),
    )
}

/// All bytes that a stream from `start` to `end` gives, where the nodes give what they are asked
/// for.
pub open spec fn streamed(object: Seq<u8>, chunk_size: int, start: int, end: int) -> Seq<u8>
    decreases end - start,
    when 0 <= start <= end && 0 < chunk_size
{
    let data = bytes_given(object, start, fetch_length(start, end, chunk_size));
    match goes_on_at(start, data.len() as int, object.len() as int, end) {
        None => data,
        Some(next) => {
            proof {
                law_fetch_stays_in_chunk(start, end, chunk_size);
            }
            data + streamed(object, chunk_size, next, end)
        },
    }
}

/// A read gives the object's own bytes: those from its start to its end, as far as the object has
/// them, each once and in order.
pub proof fn law_read_gives_object(object: Seq<u8>, chunk_size: int, start: int, end: int)
    requires
        0 <= start <= end,
        0 < chunk_size,
    ensures
        streamed(object, chunk_size, start, end) =~= object.subrange(
            least(start, object.len() as int),
            least(end, object.len() as int),
        ),
    decreases end - start,
{
    let len = object.len() as int;
    let length = fetch_length(start, end, chunk_size);
    let data = bytes_given(object, start, length);
    law_fetch_stays_in_chunk(start, end, chunk_size);
    match goes_on_at(start, data.len() as int, len, end) {
        None => {},
        Some(next) => {
            assert(start < len);
            assert(data.len() == least(start + length, len) - start);
            law_read_gives_object(object, chunk_size, next, end);
        },
    }
}

/// `pieces` are what a stream from `start` to `end` gives, one after the other, where each reply
/// holds bytes from the front of what was asked for, all of them or fewer.
pub open spec fn pieces_given(
    object: Seq<u8>,
    chunk_size: int,
    start: int,
    end: int,
    pieces: Seq<Seq<u8>>,
) -> bool
    decreases pieces.len(),
{
    &&& pieces.len() > 0
    &&& pieces[0].is_prefix_of(bytes_given(object, start, fetch_length(start, end, chunk_size)))
    &&& match goes_on_at(start, pieces[0].len() as int, object.len() as int, end) {
        None => pieces.len() == 1,
        Some(next) => pieces_given(object, chunk_size, next, end, pieces.drop_first()),
    }
}

/// Replies that are shorter than what was asked for make no difference: the pieces together are the
/// object's bytes from the start of the read to its end, as far as the object has them.
pub proof fn law_short_replies_give_object(
    object: Seq<u8>,
    chunk_size: int,
    start: int,
    end: int,
    pieces: Seq<Seq<u8>>,
)
    requires
        0 <= start <= end,
        0 < chunk_size,
        pieces_given(object, chunk_size, start, end, pieces),
    ensures
        pieces.flatten() =~= object.subrange(
            least(start, object.len() as int),
            least(end, object.len() as int),
        ),
    decreases pieces.len(),
{
    let len = object.len() as int;
    let asked = bytes_given(object, start, fetch_length(start, end, chunk_size));
    let rest = pieces.drop_first();
    law_fetch_stays_in_chunk(start, end, chunk_size);
    assert(pieces[0] =~= asked.take(pieces[0].len() as int));
    assert(pieces.flatten() == pieces[0] + rest.flatten());
    match goes_on_at(start, pieces[0].len() as int, len, end) {
        None => {
            assert(rest =~= Seq::empty());
            assert(rest.flatten() =~= Seq::empty());
        },
        Some(next) => {
            law_short_replies_give_object(object, chunk_size, next, end, rest);
        },
    }
}

/// Replies that hold something, where something was asked for, bring a stream to its end: it goes
/// on behind each of them, and before the end of the object and of the read.
pub proof fn law_replies_advance_stream(
    object: Seq<u8>,
    chunk_size: int,
    start: int,
    end: int,
    reply: Seq<u8>,
)
    requires
        0 <= start <= end,
        0 < chunk_size,
        reply.is_prefix_of(bytes_given(object, start, fetch_length(start, end, chunk_size))),
        reply.len() > 0 || bytes_given(
            object,
            start,
            fetch_length(start, end, chunk_size),
        ).len() == 0,
    ensures
        goes_on_at(start, reply.len() as int, object.len() as int, end) matches Some(next)
            ==> start < next < least(end, object.len() as int),
{
    law_fetch_stays_in_chunk(start, end, chunk_size);
}

} // verus!
