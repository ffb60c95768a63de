use avalon::clients::{fetch_chunk_result, plan_fetch_from, FetchChunkResponse, FetchChunkResult};
use avalon::cluster::{empty_cluster, AvalonCluster};
use avalon::object_store::{
    plan_get, reports_fallback, start_get, stream_step, GetOptions, GetPlan, GetRange, GetStart,
    StoreError, StreamStep,
};
use avalon::status::{Code, Status};
use std::ops::Range;

fn options(range: Option<GetRange>) -> GetOptions {
    GetOptions { version: None, head: false, range }
}

fn fetch(range: Range<u64>) -> Result<GetPlan, StoreError> {
    Ok(GetPlan::Fetch { range })
}

fn generic(reason: &str) -> StoreError {
    StoreError::Generic { reason: reason.to_string() }
}

#[test]
fn reads_are_planned_by_their_options() {
    assert_eq!(fetch(0..u64::MAX), plan_get(&options(None)));
    assert_eq!(fetch(3..9), plan_get(&options(Some(GetRange::Bounded(3..9)))));
    assert_eq!(fetch(3..u64::MAX), plan_get(&options(Some(GetRange::Offset(3)))));
    let head = GetOptions { version: None, head: true, range: Some(GetRange::Suffix(1)) };
    assert_eq!(fetch(0..0), plan_get(&head));
    assert_eq!(
        Ok(GetPlan::Fallback { reason: "suffix ranges are not supported.".to_string() }),
        plan_get(&options(Some(GetRange::Suffix(5))))
    );
}

#[test]
fn reads_that_ask_for_nothing_are_refused() {
    assert_eq!(
        Err(generic("invalid bounded range.")),
        plan_get(&options(Some(GetRange::Bounded(9..9))))
    );
    assert_eq!(
        Err(generic("invalid offset range.")),
        plan_get(&options(Some(GetRange::Offset(u64::MAX))))
    );
    let versioned = GetOptions { version: Some("1".to_string()), head: true, range: None };
    assert_eq!(
        Err(StoreError::NotSupported {
            reason: "object versioning is not supported.".to_string()
        }),
        plan_get(&versioned)
    );
}

fn result(offset: u64, data: Vec<u8>, object_size: u64) -> FetchChunkResult {
    FetchChunkResult { data, object_size, object_mtime: 4294967295, offset }
}

#[test]
fn a_read_tells_of_its_object() {
    match start_get(2..100, Ok(result(2, vec![7], 50))) {
        GetStart::Serve { info, first } => {
            assert_eq!(4294967295, info.last_modified);
            assert_eq!(50, info.size);
            assert_eq!(2..50, info.range);
            assert_eq!(vec![7], first.data);
        }
        _ => panic!("the read is served"),
    }
    match start_get(2..10, Ok(result(2, vec![7], 50))) {
        GetStart::Serve { info, .. } => assert_eq!(2..10, info.range),
        _ => panic!("the read is served"),
    }
    match start_get(2..10, Err("no luck".to_string())) {
        GetStart::Fallback { reason } => assert_eq!("avalon fetch error: no luck", reason),
        _ => panic!("the read goes past the cluster"),
    }
}

#[test]
fn a_stream_ends_with_the_object_or_the_read() {
    assert_eq!(StreamStep::Finished, stream_step(None, 10));
    let status = Status { code: Code::Internal, message: "broken".to_string() };
    assert_eq!(
        StreamStep::Failed { error: generic("fetch_chunk error: broken.") },
        stream_step(Some(Err(status)), 10)
    );
    assert_eq!(
        StreamStep::Last { data: vec![1, 2] },
        stream_step(Some(Ok(result(4, vec![1, 2], 6))), 10)
    );
    assert_eq!(
        StreamStep::Last { data: vec![1, 2] },
        stream_step(Some(Ok(result(4, vec![1, 2], 60))), 6)
    );
    assert_eq!(
        StreamStep::More { data: vec![1, 2], next: 6..10 },
        stream_step(Some(Ok(result(4, vec![1, 2], 60))), 10)
    );
}

/// A node that holds one object, and gives at most so many bytes of it at once.
fn ask(
    cluster: &AvalonCluster,
    object: &Vec<u8>,
    most: usize,
    range: Range<u64>,
) -> FetchChunkResult {
    let plan = plan_fetch_from(Some(0), cluster, "p", "q", range).unwrap();
    let start = std::cmp::min(plan.request.offset as usize, object.len());
    let end = std::cmp::min(start + plan.request.length as usize, object.len());
    let end = std::cmp::min(end, start + most);
    let response = FetchChunkResponse {
        payload: object[start..end].to_vec(),
        object_size: object.len() as u64,
        object_mtime: 0,
    };
    fetch_chunk_result(Ok(response), "x:1", plan.request.offset).unwrap()
}

fn read(object: &Vec<u8>, chunk_size: u32, options: &GetOptions) -> Vec<u8> {
    read_by(object, chunk_size, usize::MAX / 2, options)
}

fn read_by(object: &Vec<u8>, chunk_size: u32, most: usize, options: &GetOptions) -> Vec<u8> {
    let mut cluster = empty_cluster();
    cluster.client_chunk_size = chunk_size;
    let range = match plan_get(options) {
        Ok(GetPlan::Fetch { range }) => range,
        _ => panic!("the read goes through the cluster"),
    };
    let end = range.end;
    let mut state = Some(Ok(ask(&cluster, object, most, range)));
    let mut out = Vec::new();
    loop {
        match stream_step(state, end) {
            StreamStep::Last { data } => {
                out.extend(data);
                state = None;
            }
            StreamStep::More { data, next } => {
                out.extend(data);
                state = Some(Ok(ask(&cluster, object, most, next)));
            }
            StreamStep::Finished => return out,
            StreamStep::Failed { .. } => panic!("no fetch fails"),
        }
    }
}

#[test]
fn a_read_gives_the_bytes_of_its_object() {
    let object: Vec<u8> = (0..8193u32).map(|i| (i % 251) as u8).collect();
    for chunk_size in [1000, 4096, 8192, 8193, 100000] {
        assert_eq!(object, read(&object, chunk_size, &options(None)));
        assert_eq!(
            object[100..5000].to_vec(),
            read(&object, chunk_size, &options(Some(GetRange::Bounded(100..5000))))
        );
        assert_eq!(
            object[8000..].to_vec(),
            read(&object, chunk_size, &options(Some(GetRange::Offset(8000))))
        );
        assert_eq!(
            Vec::<u8>::new(),
            read(&object, chunk_size, &options(Some(GetRange::Offset(9000))))
        );
        let head = GetOptions { version: None, head: true, range: None };
        assert_eq!(Vec::<u8>::new(), read(&object, chunk_size, &head));
    }
    assert_eq!(Vec::<u8>::new(), read(&vec![], 16, &options(None)));
}

#[test]
fn short_replies_make_no_difference() {
    let object: Vec<u8> = (0..8193u32).map(|i| (i % 251) as u8).collect();
    for most in [1, 7, 999, 4095] {
        assert_eq!(object, read_by(&object, 4096, most, &options(None)));
        assert_eq!(
            object[100..5000].to_vec(),
            read_by(&object, 4096, most, &options(Some(GetRange::Bounded(100..5000))))
        );
    }
}

#[test]
fn one_read_in_a_thousand_past_the_cluster_is_reported() {
    assert!(reports_fallback(0));
    assert!(!reports_fallback(1));
    assert!(!reports_fallback(999));
    assert!(reports_fallback(1000));
}
