use cacheproxy::coordinator::{Coordinator, Role};
use cacheproxy::errors::ProxyError;
use cacheproxy::key::CacheKey;
use cacheproxy::store::{CacheStore, Lookup};

fn key(s: &str) -> CacheKey {
    CacheKey::new(s.as_bytes().to_vec()).unwrap()
}

#[test]
fn lookup_misses_on_empty_store() {
    let store = CacheStore::new();
    assert!(matches!(store.lookup(&key("anything")), Lookup::Miss));
}

#[test]
fn commit_publishes_whole_artifact() {
    let mut store = CacheStore::new();
    let k = key("obj.bin");
    let mut h = store.begin_fill(&k).unwrap();
    assert!(store.has_temp_artifact(&k));
    assert_eq!(h.append(&b"hel".to_vec(), true), Ok(3));
    assert_eq!(h.append(&b"lo".to_vec(), true), Ok(2));
    // the fill in progress is not visible through lookup
    assert!(matches!(store.lookup(&k), Lookup::Miss));
    store.commit(h, true).unwrap();
    assert!(!store.has_temp_artifact(&k));
    match store.lookup(&k) {
        Lookup::Hit(bytes, size) => {
            assert_eq!(bytes, b"hello".to_vec());
            assert_eq!(size, 5);
        }
        Lookup::Miss => panic!("commit must be visible at once"),
    }
}

#[test]
fn failed_commit_removes_temp_and_publishes_nothing() {
    let mut store = CacheStore::new();
    let k = key("gone.bin");
    let mut h = store.begin_fill(&k).unwrap();
    assert_eq!(h.append(&b"data".to_vec(), true), Ok(4));
    assert_eq!(store.commit(h, false), Err(ProxyError::CacheIOError));
    assert!(matches!(store.lookup(&k), Lookup::Miss));
    assert!(!store.has_temp_artifact(&k));
}

#[test]
fn abort_removes_temp_unconditionally() {
    let mut store = CacheStore::new();
    let k = key("aborted.bin");
    let mut h = store.begin_fill(&k).unwrap();
    assert_eq!(h.append(&b"partial".to_vec(), true), Ok(7));
    store.abort(h);
    assert!(!store.has_temp_artifact(&k));
    assert!(matches!(store.lookup(&k), Lookup::Miss));
}

#[test]
fn append_disk_failure_reports_io_error() {
    let mut store = CacheStore::new();
    let k = key("sick.bin");
    let mut h = store.begin_fill(&k).unwrap();
    assert_eq!(h.append(&b"x".to_vec(), false), Err(ProxyError::CacheIOError));
    store.abort(h);
}

#[test]
fn second_fill_for_same_key_conflicts() {
    let mut store = CacheStore::new();
    let k = key("busy.bin");
    let h = store.begin_fill(&k).unwrap();
    match store.begin_fill(&k) {
        Err(ProxyError::FillConflict) => {}
        _ => panic!("a second fill for a live temp must be refused"),
    }
    store.abort(h);
    // after the abort a fresh fill may start
    let h2 = store.begin_fill(&k).unwrap();
    store.abort(h2);
}

#[test]
fn first_requester_leads_later_ones_follow() {
    let mut coord = Coordinator::new();
    let k = key("movie.mp4");
    assert_eq!(coord.request(&k), Role::Leader);
    assert_eq!(coord.request(&k), Role::Follower);
    assert_eq!(coord.request(&k), Role::Follower);
    // a different key is independent
    assert_eq!(coord.request(&key("other.mp4")), Role::Leader);
}

#[test]
fn failure_is_never_cached_as_negative_result() {
    let mut coord = Coordinator::new();
    let k = key("flaky.bin");
    assert_eq!(coord.request(&k), Role::Leader);
    // the session ends (in failure or success): the key is freed and the
    // next requester leads a fresh attempt at once
    coord.finish(&k);
    assert_eq!(coord.request(&k), Role::Leader);
}
