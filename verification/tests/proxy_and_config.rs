use cacheproxy::config::{apply_reload, lookup_setting, rewrite_path, AppConfig};
use cacheproxy::coordinator::Coordinator;
use cacheproxy::errors::ProxyError;
use cacheproxy::key::CacheKey;
use cacheproxy::proxy::{
    error_response, follower_conclude, handle_proxy, FetchOutcome, FollowerStep, Response, Served,
};
use cacheproxy::session::{FillEnd, FillEvent, Outcome};
use cacheproxy::store::CacheStore;

fn key(s: &str) -> CacheKey {
    CacheKey::new(s.as_bytes().to_vec()).unwrap()
}

fn pair(a: &str, b: &str) -> (Vec<u8>, Vec<u8>) {
    (a.as_bytes().to_vec(), b.as_bytes().to_vec())
}

fn stream(parts: &[&str], end: FillEnd) -> FetchOutcome {
    let events = parts
        .iter()
        .map(|p| FillEvent::Chunk(p.as_bytes().to_vec(), true))
        .collect();
    FetchOutcome::Stream(events, end)
}

#[test]
fn invalid_key_is_rejected_without_origin_contact() {
    let mut store = CacheStore::new();
    let mut coord = Coordinator::new();
    let r = handle_proxy(
        &mut store,
        &mut coord,
        b"../secret".to_vec(),
        FetchOutcome::Refused,
    );
    assert!(matches!(r, Served::Done(Response::InvalidKey)));
}

#[test]
fn miss_then_hit_round_trip() {
    let mut store = CacheStore::new();
    let mut coord = Coordinator::new();
    // first request: miss, lead, stream, commit
    let r = handle_proxy(
        &mut store,
        &mut coord,
        b"movie.mp4".to_vec(),
        stream(&["mo", "vie"], FillEnd::Exhausted(true)),
    );
    match r {
        Served::Done(Response::Bytes(b)) => assert_eq!(b, b"movie".to_vec()),
        _ => panic!("leader must serve the streamed bytes"),
    }
    // second request: served from the cache, the origin answer is unused
    let r2 = handle_proxy(
        &mut store,
        &mut coord,
        b"movie.mp4".to_vec(),
        FetchOutcome::Refused,
    );
    match r2 {
        Served::Done(Response::Bytes(b)) => assert_eq!(b, b"movie".to_vec()),
        _ => panic!("hit must serve the committed bytes"),
    }
}

#[test]
fn origin_not_found_creates_no_artifact() {
    let mut store = CacheStore::new();
    let mut coord = Coordinator::new();
    let r = handle_proxy(
        &mut store,
        &mut coord,
        b"absent.bin".to_vec(),
        FetchOutcome::NotFound,
    );
    assert!(matches!(r, Served::Done(Response::NotFound)));
    assert!(!store.has_temp_artifact(&key("absent.bin")));
    // the failure was not cached: a retry leads again and may succeed
    let r2 = handle_proxy(
        &mut store,
        &mut coord,
        b"absent.bin".to_vec(),
        stream(&["late"], FillEnd::Exhausted(true)),
    );
    match r2 {
        Served::Done(Response::Bytes(b)) => assert_eq!(b, b"late".to_vec()),
        _ => panic!("retry must lead a fresh fill"),
    }
}

#[test]
fn refused_fetch_answers_upstream_error() {
    let mut store = CacheStore::new();
    let mut coord = Coordinator::new();
    let r = handle_proxy(
        &mut store,
        &mut coord,
        b"down.bin".to_vec(),
        FetchOutcome::Refused,
    );
    assert!(matches!(r, Served::Done(Response::UpstreamError)));
}

#[test]
fn interrupted_stream_serves_prefix_then_error() {
    let mut store = CacheStore::new();
    let mut coord = Coordinator::new();
    let r = handle_proxy(
        &mut store,
        &mut coord,
        b"cut.bin".to_vec(),
        stream(&["he", "ad"], FillEnd::OriginFailed),
    );
    match r {
        Served::Done(Response::Interrupted(b)) => assert_eq!(b, b"head".to_vec()),
        _ => panic!("a mid-stream origin failure serves the prefix, then errors"),
    }
}

#[test]
fn requester_into_live_session_follows() {
    let mut store = CacheStore::new();
    let mut coord = Coordinator::new();
    let k = key("live.bin");
    // a session for the key is live
    assert!(matches!(
        coord.request(&k),
        cacheproxy::coordinator::Role::Leader
    ));
    let r = handle_proxy(
        &mut store,
        &mut coord,
        b"live.bin".to_vec(),
        FetchOutcome::Refused,
    );
    assert!(matches!(r, Served::Following));
}

#[test]
fn follower_serves_on_success_retries_once_on_failure() {
    let sink = b"whole".to_vec();
    match follower_conclude(Outcome::Success(5), &sink, false) {
        FollowerStep::Serve(b) => assert_eq!(b, sink),
        _ => panic!("success must serve the sink's bytes"),
    }
    assert!(matches!(
        follower_conclude(Outcome::Failure(ProxyError::OriginError), &sink, false),
        FollowerStep::RetryAsLeader
    ));
    assert!(matches!(
        follower_conclude(Outcome::Failure(ProxyError::OriginError), &sink, true),
        FollowerStep::Surface(ProxyError::OriginError)
    ));
}

#[test]
fn errors_map_to_responses() {
    assert!(matches!(
        error_response(ProxyError::NotFound),
        Response::NotFound
    ));
    assert!(matches!(
        error_response(ProxyError::OriginError),
        Response::UpstreamError
    ));
    assert!(matches!(
        error_response(ProxyError::CacheIOError),
        Response::UpstreamError
    ));
}

#[test]
fn rewrite_applies_rules_in_order_and_chains() {
    let rules = vec![pair("/old", "/mid"), pair("/mid", "/new")];
    assert_eq!(
        rewrite_path(&rules, b"/old".to_vec()),
        b"/new".to_vec() // the second rule chains on the first rule's result
    );
    assert_eq!(rewrite_path(&rules, b"/mid".to_vec()), b"/new".to_vec());
    assert_eq!(
        rewrite_path(&rules, b"/untouched".to_vec()),
        b"/untouched".to_vec()
    );
}

#[test]
fn rewrite_matches_whole_path_only() {
    let rules = vec![pair("/a", "/b")];
    assert_eq!(rewrite_path(&rules, b"/a/x".to_vec()), b"/a/x".to_vec());
}

#[test]
fn settings_first_match_wins() {
    let pairs = vec![pair("location", "/var/cache"), pair("location", "/tmp")];
    assert_eq!(
        lookup_setting(&pairs, &b"location".to_vec()),
        Some(b"/var/cache".to_vec())
    );
    assert_eq!(lookup_setting(&pairs, &b"missing".to_vec()), None);
}

#[test]
fn failed_reload_keeps_active_snapshot() {
    let current = AppConfig {
        aws: vec![pair("endpoint", "http://origin")],
        cache: vec![pair("location", "/var/cache")],
        redirect: vec![pair("/old", "/new")],
    };
    let kept = apply_reload(current, None);
    assert_eq!(kept.aws, vec![pair("endpoint", "http://origin")]);
    assert_eq!(kept.cache, vec![pair("location", "/var/cache")]);
    let fresh = AppConfig {
        aws: vec![],
        cache: vec![pair("location", "/mnt/cache")],
        redirect: vec![],
    };
    let swapped = apply_reload(kept, Some(fresh));
    assert_eq!(swapped.cache, vec![pair("location", "/mnt/cache")]);
}
