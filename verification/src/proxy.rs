//! The proxy handler's decisions: lookup, then either a direct serve from
//! the cache or admission into a fill — as leader or follower — and the
//! mapping of every terminal outcome to a response.
//!
//! The surrounding program performs the origin fetch and the disk actions
//! these functions decide on, and feeds the outcomes back in as plain
//! values: a fetch is a [`FetchOutcome`], the stream's life is a list of
//! [`crate::session::FillEvent`]s and a [`crate::session::FillEnd`].

use vstd::prelude::*;
use vstd::pervasive::unreached;

use crate::bytes::copy_bytes;
use crate::coordinator::{role_for, Coordinator, Role};
use crate::errors::ProxyError;
use crate::key::{valid_key, CacheKey};
use crate::session::{
    all_writes_ok, chunks_concat, has_disconnect, run_fill, FillEnd, FillEvent, FillSession,
    Outcome,
};
use crate::store::{CacheStore, Lookup};

verus! {

/// What the handler answers a request.
pub enum Response {
    /// The whole object's bytes, from the cache or streamed from the
    /// origin.
    Bytes(Vec<u8>),
    /// The bytes forwarded before the origin failed part way, followed by
    /// an upstream-error termination: delivered bytes are never retracted.
    Interrupted(Vec<u8>),
    /// The request path does not form a safe cache key.
    InvalidKey,
    /// The origin has no such object.
    NotFound,
    /// The origin failed before the stream began.
    UpstreamError,
}

/// What one origin fetch produced: a byte stream that then unfolds as
/// in-flight events and an end, or an immediate refusal.
pub enum FetchOutcome {
    /// The fetch yielded a byte stream.
    Stream(Vec<FillEvent>, FillEnd),
    /// The origin has no such object; no cache artifact is ever created.
    NotFound,
    /// The origin refused or failed before yielding a stream.
    Refused,
}

/// How the admission of one request was decided.
pub enum Admission {
    /// Served directly from the cache, no origin contact, no session.
    Hit(Vec<u8>),
    /// No cached entry and no live session: this requester is the leader.
    /// It carries the fresh session, attached to it as sink zero.
    Lead(FillSession),
    /// No cached entry but a live session: attach to it as a follower.
    Follow,
}

/// First phase of request handling: cache lookup, then — on a miss —
/// singleflight admission. A hit never contacts the origin and leaves the
/// coordinator untouched; a miss makes the key live and decides leader or
/// follower.
pub fn admit_request(store: &CacheStore, coord: &mut Coordinator, key: &CacheKey) -> (r: Admission)
    requires
        store.wf(),
        old(coord).wf(),
        key.wf(),
    ensures
        final(coord).wf(),
        match r {
            Admission::Hit(bytes) => store.committed().contains_key(key@) && bytes@
                == store.committed()[key@] && final(coord).active() == old(coord).active(),
            Admission::Lead(session) => {
                &&& !store.committed().contains_key(key@)
                &&& role_for(old(coord).active(), key@) == Role::Leader
                &&& final(coord).active() == old(coord).active().insert(key@)
                &&& session.wf()
                &&& session.key() == key@
                &&& session.outcome() is Pending
                &&& session.delivered() == Seq::<u8>::empty()
                &&& !session.is_caching()
                &&& session.num_sinks() == 1
                &&& session.sink_connected(0)
                &&& session.sink_received(0) == Seq::<u8>::empty()
            },
            Admission::Follow => {
                &&& !store.committed().contains_key(key@)
                &&& role_for(old(coord).active(), key@) == Role::Follower
                &&& final(coord).active() == old(coord).active().insert(key@)
            },
        },
{
    match store.lookup(key) {
        Lookup::Hit(bytes, _size) => Admission::Hit(bytes),
        Lookup::Miss => {
            match coord.request(key) {
                Role::Leader => {
                    let mut session = FillSession::new(key);
                    let _ = session.attach_sink();
                    Admission::Lead(session)
                },
                Role::Follower => Admission::Follow,
            }
        },
    }
}

/// The leader's whole path after admission. For a stream: bind the session
/// to a cache artifact (degrading, never failing, on the defensive
/// fill-conflict guard), tee every chunk to the artifact and to every
/// sink, publish or discard the artifact, free the key, and answer from
/// the leader's own sink. An immediate `NotFound` or refusal tears the
/// session down with the matching failure and creates no artifact.
pub fn lead_fill(
    store: &mut CacheStore,
    coord: &mut Coordinator,
    key: &CacheKey,
    session: FillSession,
    fetch: FetchOutcome,
) -> (r: Response)
    requires
        old(store).wf(),
        old(coord).wf(),
        key.wf(),
        session.wf(),
        session.key() == key@,
        session.outcome() is Pending,
        !session.is_caching(),
        session.delivered() == Seq::<u8>::empty(),
        session.num_sinks() >= 1,
        session.sink_connected(0),
    ensures
        final(store).wf(),
        final(coord).wf(),
        // the window closes: a fresh session for the key may start at once
        final(coord).active() == old(coord).active().remove(key@),
        // cleanup on every path: this fill leaves no temporary artifact
        !old(store).temps().contains(key@) ==> !final(store).temps().contains(key@),
        // committed entries only grow
        forall|k2: Seq<u8>|
            old(store).committed().contains_key(k2) ==> final(store).committed().contains_key(k2),
        match fetch {
            FetchOutcome::Stream(events, end) => match end {
                FillEnd::Exhausted(commit_ok) => {
                    &&& (!old(store).temps().contains(key@) && all_writes_ok(events@) && commit_ok)
                        ==> final(store).committed() == old(store).committed().insert(
                        key@,
                        chunks_concat(events@),
                    )
                    &&& !(!old(store).temps().contains(key@) && all_writes_ok(events@)
                        && commit_ok) ==> final(store).committed() == old(store).committed()
                    &&& (r matches Response::Bytes(b) && b@.is_prefix_of(chunks_concat(events@))
                        && (!has_disconnect(events@, 0) ==> b@ == chunks_concat(events@)))
                },
                FillEnd::OriginFailed => {
                    &&& final(store).committed() == old(store).committed()
                    &&& (r matches Response::Interrupted(b) && b@.is_prefix_of(chunks_concat(
                        events@,
                    )) && (!has_disconnect(events@, 0) ==> b@ == chunks_concat(events@)))
                },
            },
            FetchOutcome::NotFound => r == Response::NotFound && final(store).committed() == old(store).committed() && final(store).temps() == old(store).temps(),
            FetchOutcome::Refused => r == Response::UpstreamError && final(store).committed()
                == old(store).committed() && final(store).temps() == old(store).temps(),
        },
{
    let mut session = session;
    match fetch {
        FetchOutcome::Stream(events, end) => {
            session.start_caching(store);
            run_fill(&mut session, store, &events, end);
            coord.finish(key);
            proof {
                assert(Seq::<u8>::empty() + chunks_concat(events@) =~= chunks_concat(events@));
            }
            let out = session.current_outcome();
            match out {
                Outcome::Success(_) => {
                    match session.sink_bytes(0) {
                        Some(b) => Response::Bytes(copy_bytes(b)),
                        None => unreached(),
                    }
                },
                Outcome::Failure(_) => {
                    match session.sink_bytes(0) {
                        Some(b) => Response::Interrupted(copy_bytes(b)),
                        None => unreached(),
                    }
                },
                Outcome::Pending => unreached(),
            }
        },
        FetchOutcome::NotFound => {
            session.fail(store, ProxyError::NotFound);
            coord.finish(key);
            Response::NotFound
        },
        FetchOutcome::Refused => {
            session.fail(store, ProxyError::OriginError);
            coord.finish(key);
            Response::UpstreamError
        },
    }
}

/// A follower's conclusion from the terminal outcome of the session it
/// subscribed to: on success it serves its sink's bytes — the whole
/// object; on failure it makes one bounded retry as a fresh leader attempt
/// before surfacing the error, so leader/follower failure cascades cannot
/// grow without bound.
pub enum FollowerStep {
    Serve(Vec<u8>),
    RetryAsLeader,
    Surface(ProxyError),
}

/// Decides a follower's next step once its session's outcome is terminal.
/// `sink` is the follower's own sink content; `retried` says whether this
/// requester has already used its one retry.
pub fn follower_conclude(outcome: Outcome, sink: &Vec<u8>, retried: bool) -> (r: FollowerStep)
    requires
        !(outcome is Pending),
    ensures
        match outcome {
            Outcome::Success(n) => (r matches FollowerStep::Serve(b) && b@ == sink@),
            Outcome::Failure(e) => r == (if retried {
                FollowerStep::Surface(e)
            } else {
                FollowerStep::RetryAsLeader
            }),
            Outcome::Pending => false,
        },
{
    match outcome {
        Outcome::Success(_) => FollowerStep::Serve(copy_bytes(sink)),
        Outcome::Failure(e) => {
            if retried {
                FollowerStep::Surface(e)
            } else {
                FollowerStep::RetryAsLeader
            }
        },
        Outcome::Pending => unreached(),
    }
}

/// The response a surfaced error maps to: the origin's "no such object"
/// answers "not found", everything else "upstream error". Both are
/// terminal for the request alone and never for the serving process.
pub fn error_response(e: ProxyError) -> (r: Response)
    ensures
        e == ProxyError::NotFound ==> r == Response::NotFound,
        e != ProxyError::NotFound ==> r == Response::UpstreamError,
{
    match e {
        ProxyError::NotFound => Response::NotFound,
        _ => Response::UpstreamError,
    }
}

/// How one whole request ended: with a response, or attached as a
/// follower to a live session it must now await.
pub enum Served {
    Done(Response),
    Following,
}

/// One whole request as the handler runs it when no other requester is
/// involved: validate the raw key, look it up, and serve the hit or lead
/// the fill. A requester that finds a live session instead is admitted as
/// a follower and returns `Following`; it then awaits the session and
/// concludes through [`follower_conclude`].
pub fn handle_proxy(
    store: &mut CacheStore,
    coord: &mut Coordinator,
    raw_key: Vec<u8>,
    fetch: FetchOutcome,
) -> (r: Served)
    requires
        old(store).wf(),
        old(coord).wf(),
    ensures
        final(store).wf(),
        final(coord).wf(),
        !valid_key(raw_key@) ==> r == Served::Done(Response::InvalidKey) && final(coord).active()
            == old(coord).active() && final(store).committed() == old(store).committed(),
        valid_key(raw_key@) && old(store).committed().contains_key(raw_key@) ==> (r matches
        Served::Done(resp) && resp matches Response::Bytes(b) && b@ == old(store).committed()[raw_key@]) && final(coord).active() == old(coord).active() && final(store).committed() == old(store).committed(),
        valid_key(raw_key@) && !old(store).committed().contains_key(raw_key@) && old(coord).active().contains(raw_key@) ==> r == Served::Following && final(coord).active() == old(coord).active() && final(store).committed() == old(store).committed(),
        valid_key(raw_key@) && !old(store).committed().contains_key(raw_key@) && !old(coord).active().contains(raw_key@) ==> final(coord).active() == old(coord).active().remove(
            raw_key@,
        ) && (match fetch {
            FetchOutcome::Stream(events, end) => match end {
                FillEnd::Exhausted(commit_ok) => {
                    &&& (r matches Served::Done(resp) && resp matches Response::Bytes(b)
                        && b@.is_prefix_of(chunks_concat(events@)) && (!has_disconnect(events@, 0)
                        ==> b@ == chunks_concat(events@)))
                    &&& ((!old(store).temps().contains(raw_key@) && all_writes_ok(events@)
                        && commit_ok) ==> final(store).committed() == old(
                        store,
                    ).committed().insert(raw_key@, chunks_concat(events@)))
                },
                FillEnd::OriginFailed => (r matches Served::Done(resp) && resp matches
                Response::Interrupted(b) && b@.is_prefix_of(chunks_concat(events@)) && (
                !has_disconnect(events@, 0) ==> b@ == chunks_concat(events@))),
            },
            FetchOutcome::NotFound => r == Served::Done(Response::NotFound),
            FetchOutcome::Refused => r == Served::Done(Response::UpstreamError),
        }),
        forall|k2: Seq<u8>|
            old(store).committed().contains_key(k2) ==> final(store).committed().contains_key(k2),
{
    let key = match CacheKey::new(raw_key) {
        Ok(k) => k,
        Err(_) => {
            return Served::Done(Response::InvalidKey);
        },
    };
    match admit_request(store, coord, &key) {
        Admission::Hit(bytes) => Served::Done(Response::Bytes(bytes)),
        Admission::Follow => {
            proof {
                assert(old(coord).active().insert(key@) =~= old(coord).active());
            }
            Served::Following
        },
        Admission::Lead(session) => {
            let resp = lead_fill(store, coord, &key, session, fetch);
            proof {
                assert(old(coord).active().insert(key@).remove(key@) =~= old(coord).active().remove(key@));
            }
            Served::Done(resp)
        },
    }
}

} // verus!
