//! The fill session and its tee populator: one origin byte sequence fanned
//! out, chunk by chunk and in arrival order, to the cache artifact and to
//! every attached client sink.
//!
//! A session is created by the first requester of an uncached key (the
//! leader) and owned by the coordinator for its whole life. Followers
//! attach while it runs and first receive a replay of everything delivered
//! so far, so a late joiner observes the full object with no gap and no
//! duplicate. A cache write failure only discards the artifact: the stream
//! keeps serving every sink, because a cache-layer failure must never fail
//! a healthy origin response. An origin failure ends the session with
//! `Failure`; bytes already forwarded are not retracted, only the cache
//! artifact is discarded.

use vstd::prelude::*;

use crate::bytes::{append_bytes, copy_bytes};
use crate::errors::ProxyError;
use crate::key::CacheKey;
use crate::store::{CacheStore, FillHandle};

verus! {

/// One client sink: the bytes forwarded to it so far, and whether it is
/// still connected.
struct Sink {
    received: Vec<u8>,
    connected: bool,
}

/// Every connected sink has observed exactly the delivered sequence — in
/// origin order, no gap, no duplicate — and every sink ever attached holds
/// a clean prefix of it.
spec fn sinks_ok(sinks: Seq<Sink>, delivered: Seq<u8>) -> bool {
    forall|i: int|
        0 <= i < sinks.len() ==> (((#[trigger] sinks[i]).connected ==> sinks[i].received@
            == delivered) && sinks[i].received@.is_prefix_of(delivered))
}

/// Terminal state of a fill session, as delivered to every subscriber.
#[derive(Clone, Copy, Debug, PartialEq, Eq, Structural)]
pub enum Outcome {
    Pending,
    /// The origin sequence was exhausted cleanly; the total bytes each
    /// subscriber was served.
    Success(usize),
    Failure(ProxyError),
}

/// One in-flight population of a key, owned by the coordinator from the
/// first miss until its outcome has been delivered.
pub struct FillSession {
    key: CacheKey,
    handle: Option<FillHandle>,
    sinks: Vec<Sink>,
    delivered: Vec<u8>,
    outcome: Outcome,
}

impl FillSession {
    /// The key being populated.
    pub closed spec fn key(&self) -> Seq<u8> {
        self.key@
    }

    /// All bytes delivered so far, in origin order (the replay buffer).
    pub closed spec fn delivered(&self) -> Seq<u8> {
        self.delivered@
    }

    pub closed spec fn outcome(&self) -> Outcome {
        self.outcome
    }

    /// Whether a cache artifact is still being written for this session.
    pub closed spec fn is_caching(&self) -> bool {
        self.handle is Some
    }

    pub closed spec fn num_sinks(&self) -> int {
        self.sinks@.len() as int
    }

    pub closed spec fn sink_connected(&self, id: int) -> bool {
        0 <= id < self.sinks@.len() && self.sinks@[id].connected
    }

    /// The bytes forwarded to sink `id` so far.
    pub closed spec fn sink_received(&self, id: int) -> Seq<u8> {
        self.sinks@[id].received@
    }

    /// Internal invariant: the key is valid, the artifact (while one is
    /// open) belongs to this key and holds exactly the delivered bytes,
    /// and the sinks are consistent with the delivered sequence: every
    /// connected sink has observed exactly the delivered bytes, and every
    /// sink ever attached holds a clean prefix of them.
    pub closed spec fn wf(&self) -> bool {
        &&& self.key.wf()
        &&& match self.handle {
            Some(h) => h.wf() && h.key() == self.key@ && h.buf() == self.delivered@,
            None => true,
        }
        &&& sinks_ok(self.sinks@, self.delivered@)
    }

    /// A fresh session for `key`: no sink, nothing delivered, pending, not
    /// yet bound to a cache artifact.
    pub fn new(key: &CacheKey) -> (s: FillSession)
        requires
            key.wf(),
        ensures
            s.wf(),
            s.key() == key@,
            s.outcome() == Outcome::Pending,
            s.delivered() == Seq::<u8>::empty(),
            s.num_sinks() == 0,
            !s.is_caching(),
    {
        FillSession {
            key: key.duplicate(),
            handle: None,
            sinks: Vec::new(),
            delivered: Vec::new(),
            outcome: Outcome::Pending,
        }
    }

    /// Binds the session to a fresh temporary artifact, once the leader's
    /// fetch has yielded a byte stream. If the artifact already exists
    /// (`FillConflict` — unreachable under the coordinator's exclusivity,
    /// kept as a defensive guard) the session degrades to serving without
    /// caching instead of failing the request.
    pub fn start_caching(&mut self, store: &mut CacheStore)
        requires
            old(self).wf(),
            old(store).wf(),
            old(self).outcome() is Pending,
            !old(self).is_caching(),
            old(self).delivered() == Seq::<u8>::empty(),
        ensures
            final(self).wf(),
            final(store).wf(),
            final(self).key() == old(self).key(),
            final(self).delivered() == old(self).delivered(),
            final(self).outcome() == old(self).outcome(),
            final(self).num_sinks() == old(self).num_sinks(),
            forall|i: int|
                0 <= i < old(self).num_sinks() ==> final(self).sink_connected(i) == old(self).sink_connected(i) && final(self).sink_received(i) == old(self).sink_received(i),
            final(store).committed() == old(store).committed(),
            !old(store).temps().contains(old(self).key()) ==> final(self).is_caching() && final(store).temps() == old(store).temps().insert(old(self).key()),
            old(store).temps().contains(old(self).key()) ==> !final(self).is_caching() && final(store).temps() == old(store).temps(),
    {
        match store.begin_fill(&self.key) {
            Ok(h) => {
                self.handle = Some(h);
            },
            Err(_) => {},
        }
    }

    /// Attaches one more client sink and replays everything delivered so
    /// far to it, so a late joiner observes the full object in origin
    /// order. Returns the sink's identifier.
    pub fn attach_sink(&mut self) -> (id: usize)
        requires
            old(self).wf(),
        ensures
            final(self).wf(),
            id as int == old(self).num_sinks(),
            final(self).num_sinks() == old(self).num_sinks() + 1,
            final(self).sink_connected(id as int),
            final(self).sink_received(id as int) == old(self).delivered(),
            final(self).key() == old(self).key(),
            final(self).delivered() == old(self).delivered(),
            final(self).outcome() == old(self).outcome(),
            final(self).is_caching() == old(self).is_caching(),
            forall|i: int|
                0 <= i < old(self).num_sinks() ==> final(self).sink_connected(i) == old(self).sink_connected(i) && final(self).sink_received(i) == old(self).sink_received(i),
    {
        let id = self.sinks.len();
        let replay = copy_bytes(&self.delivered);
        self.sinks.push(Sink { received: replay, connected: true });
        proof {
            let pre = old(self).sinks@;
            assert forall|j: int| 0 <= j < self.sinks@.len() implies (((
            #[trigger] self.sinks@[j]).connected ==> self.sinks@[j].received@ == self.delivered@)
                && self.sinks@[j].received@.is_prefix_of(self.delivered@)) by {
                if j < pre.len() {
                    assert(self.sinks@[j] == pre[j]);
                    assert((pre[j].connected ==> pre[j].received@ == old(self).delivered@)
                        && pre[j].received@.is_prefix_of(old(self).delivered@));
                } else {
                    assert(self.delivered@ =~= self.delivered@.subrange(
                        0,
                        self.delivered@.len() as int,
                    ));
                }
            }
        }
        id
    }

    /// Detaches sink `id`: a disconnected client stops receiving chunks,
    /// but the population itself continues. Unknown identifiers change
    /// nothing.
    pub fn disconnect_sink(&mut self, id: usize)
        requires
            old(self).wf(),
        ensures
            final(self).wf(),
            final(self).key() == old(self).key(),
            final(self).delivered() == old(self).delivered(),
            final(self).outcome() == old(self).outcome(),
            final(self).is_caching() == old(self).is_caching(),
            final(self).num_sinks() == old(self).num_sinks(),
            (id as int) < old(self).num_sinks() ==> !final(self).sink_connected(id as int) && final(self).sink_received(id as int) == old(self).sink_received(id as int),
            forall|i: int|
                0 <= i < old(self).num_sinks() && i != id as int ==> final(self).sink_connected(i)
                    == old(self).sink_connected(i) && final(self).sink_received(i) == old(self).sink_received(i),
    {
        if id < self.sinks.len() {
            let kept = copy_bytes(&self.sinks[id].received);
            self.sinks[id] = Sink { received: kept, connected: false };
            proof {
                let pre = old(self).sinks@;
                assert forall|j: int| 0 <= j < self.sinks@.len() implies (((
                #[trigger] self.sinks@[j]).connected ==> self.sinks@[j].received@
                    == self.delivered@) && self.sinks@[j].received@.is_prefix_of(
                    self.delivered@,
                )) by {
                    assert((pre[j].connected ==> pre[j].received@ == old(self).delivered@)
                        && pre[j].received@.is_prefix_of(old(self).delivered@));
                    if j != id as int {
                        assert(self.sinks@[j] == pre[j]);
                    }
                }
            }
        }
    }

    /// Feeds one chunk, in arrival order: first the cache artifact (the
    /// caller's disk-write outcome is `disk_ok`), then every connected
    /// sink. A write failure aborts the artifact and degrades the session
    /// to serving without caching — the chunk still reaches every sink,
    /// since a cache failure must never fail a healthy origin stream.
    #[verifier::loop_isolation(false)]
    pub fn feed_chunk(&mut self, store: &mut CacheStore, chunk: &Vec<u8>, disk_ok: bool)
        requires
            old(self).wf(),
            old(store).wf(),
            old(self).outcome() is Pending,
        ensures
            final(self).wf(),
            final(store).wf(),
            final(self).key() == old(self).key(),
            final(self).outcome() == Outcome::Pending,
            final(self).delivered() == old(self).delivered() + chunk@,
            final(self).num_sinks() == old(self).num_sinks(),
            forall|i: int|
                0 <= i < old(self).num_sinks() ==> final(self).sink_connected(i) == old(self).sink_connected(i),
            forall|i: int|
                0 <= i < old(self).num_sinks() && old(self).sink_connected(i) ==> final(self).sink_received(i) == old(self).sink_received(i) + chunk@,
            forall|i: int|
                0 <= i < old(self).num_sinks() && !old(self).sink_connected(i) ==> final(self).sink_received(i) == old(self).sink_received(i),
            final(self).is_caching() == (old(self).is_caching() && disk_ok),
            final(store).committed() == old(store).committed(),
            old(self).is_caching() && !disk_ok ==> final(store).temps() == old(store).temps().remove(old(self).key()),
            !(old(self).is_caching() && !disk_ok) ==> final(store).temps() == old(store).temps(),
    {
        // the artifact first, in arrival order
        match self.handle.take() {
            Some(mut h) => {
                match h.append(chunk, disk_ok) {
                    Ok(_) => {
                        self.handle = Some(h);
                    },
                    Err(_) => {
                        // degrade: discard the artifact, keep serving
                        store.abort(h);
                    },
                }
            },
            None => {},
        }
        append_bytes(&mut self.delivered, chunk);
        // then every connected sink
        let n = self.sinks.len();
        let ghost pre = old(self).sinks@;
        let ghost hsnap = self.handle;
        let mut i: usize = 0;
        while i < n
            invariant
                n == self.sinks@.len(),
                pre.len() == n,
                i <= n,
                self.key == old(self).key,
                self.handle == hsnap,
                self.delivered@ == old(self).delivered@ + chunk@,
                self.outcome == old(self).outcome,
                forall|j: int|
                    0 <= j < i && pre[j].connected ==> (#[trigger] self.sinks@[j]).connected
                        && self.sinks@[j].received@ == pre[j].received@ + chunk@,
                forall|j: int|
                    0 <= j < i && !pre[j].connected ==> #[trigger] self.sinks@[j] == pre[j],
                forall|j: int| i <= j < n ==> #[trigger] self.sinks@[j] == pre[j],
            decreases n - i,
        {
            if self.sinks[i].connected {
                let mut fed = copy_bytes(&self.sinks[i].received);
                append_bytes(&mut fed, chunk);
                self.sinks[i] = Sink { received: fed, connected: true };
            }
            i += 1;
        }
        proof {
            assert forall|j: int| 0 <= j < self.sinks@.len() implies (((
            #[trigger] self.sinks@[j]).connected ==> self.sinks@[j].received@ == self.delivered@)
                && self.sinks@[j].received@.is_prefix_of(self.delivered@)) by {
                assert((pre[j].connected ==> pre[j].received@ == old(self).delivered@)
                    && pre[j].received@.is_prefix_of(old(self).delivered@));
                if pre[j].connected {
                    assert(self.sinks@[j].received@ == pre[j].received@ + chunk@);
                    assert(self.sinks@[j].received@ =~= self.delivered@);
                    lemma_prefix_extend(self.sinks@[j].received@, self.delivered@);
                } else {
                    assert(self.sinks@[j] == pre[j]);
                    lemma_prefix_grows(pre[j].received@, old(self).delivered@, chunk@);
                }
            }
        }
    }

    /// Terminal step on clean exhaustion of the origin sequence: publishes
    /// the artifact atomically (`commit_ok` is the caller's rename
    /// outcome) and records Success with the total bytes served. A commit
    /// failure discards the artifact but not the response: every sink
    /// already holds correct bytes.
    pub fn complete(&mut self, store: &mut CacheStore, commit_ok: bool)
        requires
            old(self).wf(),
            old(store).wf(),
            old(self).outcome() is Pending,
        ensures
            final(self).wf(),
            final(store).wf(),
            final(self).key() == old(self).key(),
            final(self).delivered() == old(self).delivered(),
            final(self).num_sinks() == old(self).num_sinks(),
            forall|i: int|
                0 <= i < old(self).num_sinks() ==> final(self).sink_connected(i) == old(self).sink_connected(i) && final(self).sink_received(i) == old(self).sink_received(i),
            (final(self).outcome() matches Outcome::Success(n) && n == old(self).delivered().len()),
            !final(self).is_caching(),
            old(self).is_caching() && commit_ok ==> final(store).committed() == old(store).committed().insert(old(self).key(), old(self).delivered()),
            !(old(self).is_caching() && commit_ok) ==> final(store).committed() == old(store).committed(),
            old(self).is_caching() ==> final(store).temps() == old(store).temps().remove(
                old(self).key(),
            ),
            !old(self).is_caching() ==> final(store).temps() == old(store).temps(),
            forall|k2: Seq<u8>|
                old(store).committed().contains_key(k2) ==> final(store).committed().contains_key(
                    k2,
                ),
    {
        match self.handle.take() {
            Some(h) => {
                let _ = store.commit(h, commit_ok);
            },
            None => {},
        }
        let total = self.delivered.len();
        self.outcome = Outcome::Success(total);
    }

    /// Terminal step on an origin failure, at fetch start or on a chunk
    /// error: aborts the artifact and records the failure. Bytes already
    /// forwarded to sinks are not retracted — they were correct — only the
    /// cache artifact is discarded.
    pub fn fail(&mut self, store: &mut CacheStore, err: ProxyError)
        requires
            old(self).wf(),
            old(store).wf(),
            old(self).outcome() is Pending,
        ensures
            final(self).wf(),
            final(store).wf(),
            final(self).key() == old(self).key(),
            final(self).delivered() == old(self).delivered(),
            final(self).num_sinks() == old(self).num_sinks(),
            forall|i: int|
                0 <= i < old(self).num_sinks() ==> final(self).sink_connected(i) == old(self).sink_connected(i) && final(self).sink_received(i) == old(self).sink_received(i),
            final(self).outcome() == Outcome::Failure(err),
            !final(self).is_caching(),
            final(store).committed() == old(store).committed(),
            old(self).is_caching() ==> final(store).temps() == old(store).temps().remove(
                old(self).key(),
            ),
            !old(self).is_caching() ==> final(store).temps() == old(store).temps(),
    {
        match self.handle.take() {
            Some(h) => {
                store.abort(h);
            },
            None => {},
        }
        self.outcome = Outcome::Failure(err);
    }

    /// The fetch-cancellation policy knob: cancel the underlying fetch
    /// only when the knob is enabled and no connected sink remains. The
    /// default (disabled) favors cache warmth: population continues to
    /// completion even after every client has disconnected.
    pub fn should_cancel(&self, cancel_when_idle: bool) -> (r: bool)
        ensures
            r <==> (cancel_when_idle && !(exists|i: int|
                0 <= i < self.num_sinks() && #[trigger] self.sink_connected(i))),
    {
        if !cancel_when_idle {
            return false;
        }
        let n = self.sinks.len();
        let mut i: usize = 0;
        while i < n
            invariant
                n == self.sinks@.len(),
                i <= n,
                forall|j: int| 0 <= j < i ==> !(#[trigger] self.sink_connected(j)),
            decreases n - i,
        {
            if self.sinks[i].connected {
                proof {
                    assert(self.sink_connected(i as int));
                }
                return false;
            }
            i += 1;
        }
        true
    }

    /// The sink's bytes so far, or `None` for an unknown identifier.
    pub fn sink_bytes(&self, id: usize) -> (r: Option<&Vec<u8>>)
        ensures
            match r {
                Some(b) => (id as int) < self.num_sinks() && b@ == self.sink_received(id as int),
                None => (id as int) >= self.num_sinks(),
            },
    {
        if id < self.sinks.len() {
            Some(&self.sinks[id].received)
        } else {
            None
        }
    }

    /// Whether the sink is still connected; `None` for an unknown
    /// identifier.
    pub fn sink_live(&self, id: usize) -> (r: Option<bool>)
        ensures
            match r {
                Some(c) => (id as int) < self.num_sinks() && c == self.sink_connected(id as int),
                None => (id as int) >= self.num_sinks(),
            },
    {
        if id < self.sinks.len() {
            Some(self.sinks[id].connected)
        } else {
            None
        }
    }

    /// The session's current outcome.
    pub fn current_outcome(&self) -> (o: Outcome)
        ensures
            o == self.outcome(),
    {
        self.outcome
    }

    /// All bytes delivered so far, in origin order.
    pub fn delivered_bytes(&self) -> (r: &Vec<u8>)
        ensures
            r@ == self.delivered(),
    {
        &self.delivered
    }
}


/// One observable event while a fill is in flight, in arrival order.
pub enum FillEvent {
    /// A chunk from the origin, with the outcome of the caller's disk
    /// write for the cache artifact.
    Chunk(Vec<u8>, bool),
    /// A follower attaches (and is first served a full replay).
    Attach,
    /// The client behind the sink with this identifier disconnects.
    Disconnect(usize),
}

/// How the origin byte sequence ended.
pub enum FillEnd {
    /// Exhausted cleanly; the payload is the outcome of the caller's
    /// atomic rename publishing the artifact.
    Exhausted(bool),
    /// A chunk read failed part way.
    OriginFailed,
}

/// The bytes an event contributes to the stream.
pub open spec fn event_bytes(e: FillEvent) -> Seq<u8> {
    match e {
        FillEvent::Chunk(d, _) => d@,
        _ => Seq::<u8>::empty(),
    }
}

/// Whether an event's disk write succeeded (trivially true for others).
pub open spec fn event_write_ok(e: FillEvent) -> bool {
    match e {
        FillEvent::Chunk(_, ok) => ok,
        _ => true,
    }
}

/// All origin bytes in `events`, concatenated in arrival order.
pub open spec fn chunks_concat(events: Seq<FillEvent>) -> Seq<u8>
    decreases events.len(),
{
    if events.len() == 0 {
        Seq::<u8>::empty()
    } else {
        chunks_concat(events.drop_last()) + event_bytes(events.last())
    }
}

/// Whether every disk write in `events` succeeded.
pub open spec fn all_writes_ok(events: Seq<FillEvent>) -> bool {
    forall|i: int| 0 <= i < events.len() ==> event_write_ok(#[trigger] events[i])
}

/// Whether `events` disconnects the sink with identifier `id`.
pub open spec fn has_disconnect(events: Seq<FillEvent>, id: int) -> bool {
    exists|i: int|
        0 <= i < events.len() && ((#[trigger] events[i]) matches FillEvent::Disconnect(d) && d as int
            == id)
}

proof fn lemma_take_succ(events: Seq<FillEvent>, i: int)
    requires
        0 <= i < events.len(),
    ensures
        events.take(i + 1) == events.take(i).push(events[i]),
{
    assert(events.take(i + 1) =~= events.take(i).push(events[i]));
}

proof fn lemma_concat_push(s: Seq<FillEvent>, e: FillEvent)
    ensures
        chunks_concat(s.push(e)) == chunks_concat(s) + event_bytes(e),
{
    assert(s.push(e).drop_last() =~= s);
    assert(s.push(e).last() == e);
}

proof fn lemma_writes_ok_push(s: Seq<FillEvent>, e: FillEvent)
    ensures
        all_writes_ok(s.push(e)) <==> (all_writes_ok(s) && event_write_ok(e)),
{
    if all_writes_ok(s.push(e)) {
        assert forall|i: int| 0 <= i < s.len() implies event_write_ok(#[trigger] s[i]) by {
            assert(s.push(e)[i] == s[i]);
            assert(event_write_ok(s.push(e)[i]));
        }
        assert(s.push(e)[s.len() as int] == e);
        assert(event_write_ok(s.push(e)[s.len() as int]));
    }
    if all_writes_ok(s) && event_write_ok(e) {
        assert forall|i: int| 0 <= i < s.push(e).len() implies event_write_ok(
            #[trigger] s.push(e)[i],
        ) by {
            if i < s.len() {
                assert(s.push(e)[i] == s[i]);
            } else {
                assert(s.push(e)[i] == e);
            }
        }
    }
}

proof fn lemma_disconnect_push(s: Seq<FillEvent>, e: FillEvent, id: int)
    ensures
        has_disconnect(s.push(e), id) <==> (has_disconnect(s, id) || (e matches
        FillEvent::Disconnect(d) && d as int == id)),
{
    if has_disconnect(s.push(e), id) {
        let i = choose|i: int|
            0 <= i < s.push(e).len() && ((#[trigger] s.push(e)[i]) matches FillEvent::Disconnect(d)
                && d as int == id);
        if i < s.len() {
            assert(s[i] == s.push(e)[i]);
        } else {
            assert(s.push(e)[i] == e);
        }
    }
    if has_disconnect(s, id) {
        let i = choose|i: int|
            0 <= i < s.len() && ((#[trigger] s[i]) matches FillEvent::Disconnect(d) && d as int
                == id);
        assert(s.push(e)[i] == s[i]);
    }
    if (e matches FillEvent::Disconnect(d) && d as int == id) {
        assert(s.push(e)[s.len() as int] == e);
    }
}

/// Drives a whole fill to its terminal outcome. Per event in arrival
/// order: a chunk is appended to the cache artifact and forwarded to every
/// connected sink; a follower attaches, first receiving a full replay; a
/// client disconnects — which never cancels the population. When the
/// origin sequence ends, the artifact is committed (clean exhaustion) or
/// aborted (origin failure), and the outcome becomes terminal. The
/// session's temporary artifact is gone on every path.
#[verifier::loop_isolation(false)]
pub fn run_fill(
    session: &mut FillSession,
    store: &mut CacheStore,
    events: &Vec<FillEvent>,
    end: FillEnd,
)
    requires
        old(session).wf(),
        old(store).wf(),
        old(session).outcome() is Pending,
    ensures
        final(session).wf(),
        final(store).wf(),
        final(session).key() == old(session).key(),
        final(session).delivered() == old(session).delivered() + chunks_concat(events@),
        !final(session).is_caching(),
        old(session).is_caching() ==> final(store).temps() == old(store).temps().remove(
            old(session).key(),
        ),
        !old(session).is_caching() ==> final(store).temps() == old(store).temps(),
        old(session).is_caching() ==> !final(store).temps().contains(old(session).key()),
        forall|k2: Seq<u8>|
            old(store).committed().contains_key(k2) ==> final(store).committed().contains_key(k2),
        match end {
            FillEnd::Exhausted(commit_ok) => {
                &&& (final(session).outcome() matches Outcome::Success(n) && n == final(session).delivered().len())
                &&& (old(session).is_caching() && all_writes_ok(events@) && commit_ok) ==> final(store).committed() == old(store).committed().insert(
                    old(session).key(),
                    old(session).delivered() + chunks_concat(events@),
                )
                &&& !(old(session).is_caching() && all_writes_ok(events@) && commit_ok) ==> final(store).committed() == old(store).committed()
            },
            FillEnd::OriginFailed => {
                &&& final(session).outcome() == Outcome::Failure(ProxyError::OriginError)
                &&& final(store).committed() == old(store).committed()
            },
        },
        forall|i: int|
            0 <= i < final(session).num_sinks() && final(session).sink_connected(i)
                ==> #[trigger] final(session).sink_received(i) == final(session).delivered(),
        forall|i: int|
            0 <= i < final(session).num_sinks() ==> (#[trigger] final(session).sink_received(
                i,
            )).is_prefix_of(final(session).delivered()),
        final(session).num_sinks() >= old(session).num_sinks(),
        forall|id: int|
            0 <= id < final(session).num_sinks() && (id >= old(session).num_sinks() || old(session).sink_connected(id)) && !has_disconnect(events@, id) ==> #[trigger] final(session).sink_connected(id),
{
    let n = events.len();
    let mut i: usize = 0;
    proof {
        assert(events@.take(0) =~= Seq::<FillEvent>::empty());
        assert(old(session).delivered() + chunks_concat(events@.take(0)) =~= old(session).delivered());
    }
    while i < n
        invariant
            i <= n,
            session.wf(),
            store.wf(),
            session.outcome() is Pending,
            session.key() == old(session).key(),
            session.delivered() == old(session).delivered() + chunks_concat(
                events@.take(i as int),
            ),
            session.is_caching() == (old(session).is_caching() && all_writes_ok(
                events@.take(i as int),
            )),
            store.committed() == old(store).committed(),
            (old(session).is_caching() && !all_writes_ok(events@.take(i as int))) ==> store.temps()
                == old(store).temps().remove(old(session).key()),
            !(old(session).is_caching() && !all_writes_ok(events@.take(i as int)))
                ==> store.temps() == old(store).temps(),
            session.num_sinks() >= old(session).num_sinks(),
            forall|id: int|
                0 <= id < session.num_sinks() && (id >= old(session).num_sinks() || old(session).sink_connected(id)) && !has_disconnect(events@.take(i as int), id)
                    ==> #[trigger] session.sink_connected(id),
        decreases n - i,
    {
        let ghost prefix = events@.take(i as int);
        let ghost ev = events@[i as int];
        let ghost presession = *session;
        proof {
            lemma_take_succ(events@, i as int);
            lemma_concat_push(prefix, ev);
            lemma_writes_ok_push(prefix, ev);
        }
        match &events[i] {
            FillEvent::Chunk(data, disk_ok) => {
                session.feed_chunk(store, data, *disk_ok);
                proof {
                    assert(event_bytes(ev) == data@);
                    assert(session.delivered() =~= old(session).delivered() + chunks_concat(
                        events@.take(i as int + 1),
                    ));
                }
            },
            FillEvent::Attach => {
                let _ = session.attach_sink();
                proof {
                    assert(session.delivered() =~= old(session).delivered() + chunks_concat(
                        events@.take(i as int + 1),
                    ));
                }
            },
            FillEvent::Disconnect(id) => {
                session.disconnect_sink(*id);
                proof {
                    assert(session.delivered() =~= old(session).delivered() + chunks_concat(
                        events@.take(i as int + 1),
                    ));
                }
            },
        }
        proof {
            assert forall|id: int|
                0 <= id < session.num_sinks() && (id >= old(session).num_sinks() || old(session).sink_connected(id)) && !has_disconnect(events@.take(i as int + 1), id) implies
                #[trigger] session.sink_connected(id) by {
                lemma_disconnect_push(prefix, ev, id);
                if id < presession.num_sinks() {
                    assert(presession.sink_connected(id));
                } else {
                    assert(ev is Attach);
                }
            }
        }
        i += 1;
    }
    proof {
        assert(events@.take(n as int) =~= events@);
    }
    match end {
        FillEnd::Exhausted(commit_ok) => {
            session.complete(store, commit_ok);
        },
        FillEnd::OriginFailed => {
            session.fail(store, ProxyError::OriginError);
        },
    }
    proof {
        assert forall|i2: int|
            0 <= i2 < session.num_sinks() implies ((session.sink_connected(i2)
            ==> #[trigger] session.sink_received(i2) == session.delivered())
            && session.sink_received(i2).is_prefix_of(session.delivered())) by {
            assert((((session.sinks@[i2]).connected ==> session.sinks@[i2].received@
                == session.delivered@) && session.sinks@[i2].received@.is_prefix_of(
                session.delivered@,
            )));
        }
    }
}

/// A sequence is a prefix of itself extended by anything.
proof fn lemma_prefix_extend(a: Seq<u8>, b: Seq<u8>)
    requires
        a == b,
    ensures
        a.is_prefix_of(b),
{
    assert(a =~= b.subrange(0, a.len() as int));
}

/// A prefix of `b` is still a prefix of `b + c`.
proof fn lemma_prefix_grows(a: Seq<u8>, b: Seq<u8>, c: Seq<u8>)
    requires
        a.is_prefix_of(b),
    ensures
        a.is_prefix_of(b + c),
{
    assert(a =~= (b + c).subrange(0, a.len() as int));
}

} // verus!
