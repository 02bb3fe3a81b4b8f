use cacheproxy::coordinator::Coordinator;
use cacheproxy::key::CacheKey;
use cacheproxy::proxy::{admit_request, Admission};
use cacheproxy::session::{run_fill, FillEnd, FillEvent, Outcome};
use cacheproxy::store::{CacheStore, Lookup};

fn key(s: &str) -> CacheKey {
    CacheKey::new(s.as_bytes().to_vec()).unwrap()
}

fn chunk(s: &str) -> FillEvent {
    FillEvent::Chunk(s.as_bytes().to_vec(), true)
}

fn hit_of(store: &CacheStore, k: &CacheKey) -> Option<(Vec<u8>, usize)> {
    match store.lookup(k) {
        Lookup::Hit(bytes, size) => Some((bytes, size)),
        Lookup::Miss => None,
    }
}

#[test]
fn two_simultaneous_requests_one_fetch() {
    let mut store = CacheStore::new();
    let mut coord = Coordinator::new();
    let k = key("movie.mp4");

    // both requests arrive before either fetch could start: exactly one
    // leads, so exactly one fetch reaches the origin store
    let first = admit_request(&store, &mut coord, &k);
    let second = admit_request(&store, &mut coord, &k);
    let mut session = match first {
        Admission::Lead(s) => s,
        _ => panic!("first requester must lead"),
    };
    assert!(matches!(second, Admission::Follow));

    // the follower attaches to the live session; the leader streams
    session.start_caching(&mut store);
    let follower = session.attach_sink();
    let events = vec![chunk("movie-"), chunk("bytes")];
    run_fill(&mut session, &mut store, &events, FillEnd::Exhausted(true));
    coord.finish(&k);

    // both callers receive identical byte sequences
    let leader_bytes = session.sink_bytes(0).unwrap().clone();
    let follower_bytes = session.sink_bytes(follower).unwrap().clone();
    assert_eq!(leader_bytes, b"movie-bytes".to_vec());
    assert_eq!(leader_bytes, follower_bytes);
    assert!(matches!(session.current_outcome(), Outcome::Success(11)));

    // afterwards the lookup hits with the same size both observed
    let (bytes, size) = hit_of(&store, &k).expect("hit after commit");
    assert_eq!(bytes, leader_bytes);
    assert_eq!(size, leader_bytes.len());
}

#[test]
fn origin_fails_after_three_of_ten_chunks() {
    let mut store = CacheStore::new();
    let mut coord = Coordinator::new();
    let k = key("report.pdf");

    let mut session = match admit_request(&store, &mut coord, &k) {
        Admission::Lead(s) => s,
        _ => panic!("sole requester must lead"),
    };
    session.start_caching(&mut store);
    // the origin dies after delivering 3 of 10 chunks
    let events = vec![chunk("one."), chunk("two."), chunk("three.")];
    run_fill(&mut session, &mut store, &events, FillEnd::OriginFailed);
    coord.finish(&k);

    // the caller received exactly those 3 chunks, then the error
    assert_eq!(
        session.sink_bytes(0).unwrap().as_slice(),
        b"one.two.three.".as_slice()
    );
    assert!(matches!(
        session.current_outcome(),
        Outcome::Failure(cacheproxy::errors::ProxyError::OriginError)
    ));
    // no cache entry, no temporary artifact remains
    assert!(hit_of(&store, &k).is_none());
    assert!(!store.has_temp_artifact(&k));
}

#[test]
fn commit_failure_still_serves_full_object() {
    let mut store = CacheStore::new();
    let mut coord = Coordinator::new();
    let k = key("x");

    let mut session = match admit_request(&store, &mut coord, &k) {
        Admission::Lead(s) => s,
        _ => panic!("sole requester must lead"),
    };
    session.start_caching(&mut store);
    let events = vec![chunk("whole-"), chunk("object")];
    // the fetch succeeds but the atomic publish fails (disk full)
    run_fill(&mut session, &mut store, &events, FillEnd::Exhausted(false));
    coord.finish(&k);

    assert_eq!(
        session.sink_bytes(0).unwrap().as_slice(),
        b"whole-object".as_slice()
    );
    assert!(matches!(session.current_outcome(), Outcome::Success(12)));
    assert!(hit_of(&store, &k).is_none());
    assert!(!store.has_temp_artifact(&k));
}

#[test]
fn late_follower_sees_full_object_in_order() {
    let mut store = CacheStore::new();
    let mut coord = Coordinator::new();
    let k = key("big.iso");

    let mut session = match admit_request(&store, &mut coord, &k) {
        Admission::Lead(s) => s,
        _ => panic!("sole requester must lead"),
    };
    session.start_caching(&mut store);
    // the follower attaches after 40% (2 of 5 chunks) has streamed
    let events = vec![
        chunk("aa"),
        chunk("bb"),
        FillEvent::Attach,
        chunk("cc"),
        chunk("dd"),
        chunk("ee"),
    ];
    run_fill(&mut session, &mut store, &events, FillEnd::Exhausted(true));
    coord.finish(&k);

    // the follower's bytes, concatenated, equal the full object: the
    // replay covered the missed 40%, the live feed the rest — no gap,
    // no duplicate
    let follower_bytes = session.sink_bytes(1).unwrap();
    assert_eq!(follower_bytes.as_slice(), b"aabbccddee".as_slice());
}

#[test]
fn disconnect_does_not_cancel_population() {
    let mut store = CacheStore::new();
    let mut coord = Coordinator::new();
    let k = key("warm.bin");

    let mut session = match admit_request(&store, &mut coord, &k) {
        Admission::Lead(s) => s,
        _ => panic!("sole requester must lead"),
    };
    session.start_caching(&mut store);
    // the sole sink disconnects after 10% (1 of 10 chunks); the
    // fetch-cancellation knob is disabled, so the fill completes
    let mut events = vec![chunk("0"), FillEvent::Disconnect(0)];
    for part in ["1", "2", "3", "4", "5", "6", "7", "8", "9"] {
        events.push(chunk(part));
    }
    run_fill(&mut session, &mut store, &events, FillEnd::Exhausted(true));
    coord.finish(&k);

    // the disconnected client holds only its prefix
    assert_eq!(session.sink_live(0), Some(false));
    assert_eq!(session.sink_bytes(0).unwrap().as_slice(), b"0".as_slice());
    // but the whole object is committed and a later lookup hits it
    let (bytes, size) = hit_of(&store, &k).expect("hit after full fill");
    assert_eq!(bytes, b"0123456789".to_vec());
    assert_eq!(size, 10);
}

#[test]
fn cancellation_knob_only_fires_when_idle() {
    let mut session = cacheproxy::session::FillSession::new(&key("idle.bin"));
    let id = session.attach_sink();
    assert_eq!(session.sink_live(id), Some(true));
    assert_eq!(session.sink_live(id + 1), None);
    assert!(!session.should_cancel(false));
    assert!(!session.should_cancel(true));
    session.disconnect_sink(id);
    // knob disabled: never cancel, favoring cache warmth
    assert!(!session.should_cancel(false));
    // knob enabled and no sink left: cancel
    assert!(session.should_cancel(true));
}

#[test]
fn disk_write_failure_degrades_to_serving_without_caching() {
    let mut store = CacheStore::new();
    let mut coord = Coordinator::new();
    let k = key("degraded.bin");

    let mut session = match admit_request(&store, &mut coord, &k) {
        Admission::Lead(s) => s,
        _ => panic!("sole requester must lead"),
    };
    session.start_caching(&mut store);
    // the second chunk's disk write fails; the stream must keep serving
    let events = vec![
        chunk("AB"),
        FillEvent::Chunk(b"CD".to_vec(), false),
        chunk("EF"),
    ];
    run_fill(&mut session, &mut store, &events, FillEnd::Exhausted(true));
    coord.finish(&k);

    // the client still received everything
    assert_eq!(
        session.sink_bytes(0).unwrap().as_slice(),
        b"ABCDEF".as_slice()
    );
    assert!(matches!(session.current_outcome(), Outcome::Success(6)));
    // but nothing was cached, and no temporary artifact remains
    assert!(hit_of(&store, &k).is_none());
    assert!(!store.has_temp_artifact(&k));
}
