//! The cache store: committed entries, visible through lookup, and
//! temporary fill artifacts, never visible until an atomic commit.
//!
//! The store is the authoritative model of what lies under the cache root:
//! one committed artifact per key, plus at most one temporary sibling
//! artifact per key while a fill is in progress. A caller that keeps a real
//! directory in step performs one disk action per operation (create a temp
//! file, append to it, rename it over the final path, remove it) and passes
//! the outcome of each fallible action in as `io_ok`.
//!
//! Guarantees stated here: only committed content is ever returned by
//! `lookup`; `commit` publishes the whole temporary artifact in one step or
//! removes it; `abort` always removes it; no operation ever removes a
//! committed entry (see [`lemma_committed_permanent`]).

use vstd::prelude::*;

use crate::bytes::{append_bytes, bytes_eq, copy_bytes};
use crate::errors::ProxyError;
use crate::key::{valid_key, CacheKey};

verus! {

/// Whether the entry list `s` holds an entry for key `k`.
spec fn seq_has_key(s: Seq<(Vec<u8>, Vec<u8>)>, k: Seq<u8>) -> bool {
    exists|i: int| 0 <= i < s.len() && (#[trigger] s[i]).0@ == k
}

spec fn seq_key_index(s: Seq<(Vec<u8>, Vec<u8>)>, k: Seq<u8>) -> int {
    choose|i: int| 0 <= i < s.len() && (#[trigger] s[i]).0@ == k
}

/// The content stored under key `k` (meaningful when `seq_has_key`).
spec fn seq_key_value(s: Seq<(Vec<u8>, Vec<u8>)>, k: Seq<u8>) -> Seq<u8> {
    s[seq_key_index(s, k)].1@
}

spec fn seq_keys_distinct(s: Seq<(Vec<u8>, Vec<u8>)>) -> bool {
    forall|i: int, j: int|
        0 <= i < s.len() && 0 <= j < s.len() && i != j ==> (#[trigger] s[i]).0@ != (
        #[trigger] s[j]).0@
}

spec fn seq_keys_valid(s: Seq<(Vec<u8>, Vec<u8>)>) -> bool {
    forall|i: int| 0 <= i < s.len() ==> valid_key((#[trigger] s[i]).0@)
}

/// Whether the name list `s` (temporary artifacts) holds key `k`.
spec fn names_has(s: Seq<Vec<u8>>, k: Seq<u8>) -> bool {
    exists|i: int| 0 <= i < s.len() && (#[trigger] s[i])@ == k
}

spec fn names_distinct(s: Seq<Vec<u8>>) -> bool {
    forall|i: int, j: int|
        0 <= i < s.len() && 0 <= j < s.len() && i != j ==> (#[trigger] s[i])@ != (
        #[trigger] s[j])@
}

spec fn names_valid(s: Seq<Vec<u8>>) -> bool {
    forall|i: int| 0 <= i < s.len() ==> valid_key((#[trigger] s[i])@)
}

/// In a distinct entry list, the entry at `i` is the one `k` names.
proof fn lemma_at(s: Seq<(Vec<u8>, Vec<u8>)>, k: Seq<u8>, i: int)
    requires
        seq_keys_distinct(s),
        0 <= i < s.len(),
        s[i].0@ == k,
    ensures
        seq_has_key(s, k),
        seq_key_value(s, k) == s[i].1@,
{
    assert(seq_has_key(s, k));
    let w = seq_key_index(s, k);
    assert(0 <= w < s.len() && s[w].0@ == k);
    if w != i {
        assert(s[i].0@ != s[w].0@);
    }
}

/// Pushing a fresh key keeps an entry list well formed; presence and
/// values of the others carry over, and the new key maps to the new value.
proof fn lemma_entries_push(pre: Seq<(Vec<u8>, Vec<u8>)>, cur: Seq<(Vec<u8>, Vec<u8>)>, k: Seq<u8>, v: Seq<u8>)
    requires
        seq_keys_distinct(pre),
        seq_keys_valid(pre),
        !seq_has_key(pre, k),
        valid_key(k),
        cur.len() == pre.len() + 1,
        forall|j: int| 0 <= j < pre.len() ==> #[trigger] cur[j] == pre[j],
        cur[pre.len() as int].0@ == k,
        cur[pre.len() as int].1@ == v,
    ensures
        seq_keys_distinct(cur),
        seq_keys_valid(cur),
        forall|k2: Seq<u8>| seq_has_key(cur, k2) <==> (seq_has_key(pre, k2) || k2 == k),
        seq_key_value(cur, k) == v,
        forall|k2: Seq<u8>|
            k2 != k && seq_has_key(pre, k2) ==> seq_key_value(cur, k2) == seq_key_value(pre, k2),
{
    assert forall|i2: int, j2: int|
        0 <= i2 < cur.len() && 0 <= j2 < cur.len() && i2 != j2 implies (#[trigger] cur[i2]).0@ != (
    #[trigger] cur[j2]).0@ by {
        if i2 < pre.len() && j2 < pre.len() {
        } else if i2 == pre.len() {
            if cur[j2].0@ == k {
                assert(pre[j2].0@ == k);
                assert(seq_has_key(pre, k));
            }
        } else {
            if cur[i2].0@ == k {
                assert(pre[i2].0@ == k);
                assert(seq_has_key(pre, k));
            }
        }
    }
    assert forall|i2: int| 0 <= i2 < cur.len() implies valid_key((#[trigger] cur[i2]).0@) by {}
    assert forall|k2: Seq<u8>| seq_has_key(cur, k2) implies (seq_has_key(pre, k2) || k2 == k) by {
        let j = choose|j: int| 0 <= j < cur.len() && (#[trigger] cur[j]).0@ == k2;
        if j < pre.len() {
            assert(pre[j].0@ == k2);
        }
    }
    assert forall|k2: Seq<u8>| (seq_has_key(pre, k2) || k2 == k) implies seq_has_key(cur, k2) by {
        if k2 == k {
            assert(cur[pre.len() as int].0@ == k2);
        } else {
            let j = choose|j: int| 0 <= j < pre.len() && (#[trigger] pre[j]).0@ == k2;
            assert(cur[j].0@ == k2);
        }
    }
    lemma_at(cur, k, pre.len() as int);
    assert forall|k2: Seq<u8>| k2 != k && seq_has_key(pre, k2) implies seq_key_value(cur, k2)
        == seq_key_value(pre, k2) by {
        let j = choose|j: int| 0 <= j < pre.len() && (#[trigger] pre[j]).0@ == k2;
        lemma_at(pre, k2, j);
        lemma_at(cur, k2, j);
    }
}

/// Removing the entry at `i` keeps an entry list well formed; presence and
/// values of every other key carry over, and `pre[i]`'s key is gone.
proof fn lemma_entries_removed(pre: Seq<(Vec<u8>, Vec<u8>)>, cur: Seq<(Vec<u8>, Vec<u8>)>, i: int)
    requires
        seq_keys_distinct(pre),
        seq_keys_valid(pre),
        0 <= i < pre.len(),
        cur == pre.remove(i),
    ensures
        seq_keys_distinct(cur),
        seq_keys_valid(cur),
        !seq_has_key(cur, pre[i].0@),
        forall|k2: Seq<u8>|
            k2 != pre[i].0@ ==> (seq_has_key(cur, k2) <==> seq_has_key(pre, k2)),
        forall|k2: Seq<u8>|
            k2 != pre[i].0@ && seq_has_key(pre, k2) ==> seq_key_value(cur, k2) == seq_key_value(
                pre,
                k2,
            ),
{
    pre.remove_ensures(i);
    assert forall|i2: int, j2: int|
        0 <= i2 < cur.len() && 0 <= j2 < cur.len() && i2 != j2 implies (#[trigger] cur[i2]).0@ != (
    #[trigger] cur[j2]).0@ by {
        let oi: int = if i2 < i {
            i2
        } else {
            i2 + 1
        };
        let oj: int = if j2 < i {
            j2
        } else {
            j2 + 1
        };
        assert(cur[i2] == pre[oi]);
        assert(cur[j2] == pre[oj]);
    }
    assert forall|i2: int| 0 <= i2 < cur.len() implies valid_key((#[trigger] cur[i2]).0@) by {
        let oi: int = if i2 < i {
            i2
        } else {
            i2 + 1
        };
        assert(cur[i2] == pre[oi]);
    }
    assert forall|j: int| 0 <= j < cur.len() implies (#[trigger] cur[j]).0@ != pre[i].0@ by {
        let oj: int = if j < i {
            j
        } else {
            j + 1
        };
        assert(cur[j] == pre[oj]);
        assert(oj != i);
    }
    assert forall|k2: Seq<u8>| k2 != pre[i].0@ && seq_has_key(cur, k2) implies seq_has_key(
        pre,
        k2,
    ) by {
        let j = choose|j: int| 0 <= j < cur.len() && (#[trigger] cur[j]).0@ == k2;
        let oj: int = if j < i {
            j
        } else {
            j + 1
        };
        assert(cur[j] == pre[oj]);
        assert(pre[oj].0@ == k2);
    }
    assert forall|k2: Seq<u8>| k2 != pre[i].0@ && seq_has_key(pre, k2) implies seq_has_key(cur, k2)
        && seq_key_value(cur, k2) == seq_key_value(pre, k2) by {
        let j = choose|j: int| 0 <= j < pre.len() && (#[trigger] pre[j]).0@ == k2;
        assert(j != i);
        let nj: int = if j < i {
            j
        } else {
            j - 1
        };
        assert(cur[nj] == pre[j]);
        assert(cur[nj].0@ == k2);
        lemma_at(cur, k2, nj);
        lemma_at(pre, k2, j);
    }
}

/// Pushing a fresh name keeps a name list well formed, and presence is the
/// old presence plus the new name.
proof fn lemma_names_push(pre: Seq<Vec<u8>>, cur: Seq<Vec<u8>>, k: Seq<u8>)
    requires
        names_distinct(pre),
        names_valid(pre),
        !names_has(pre, k),
        valid_key(k),
        cur.len() == pre.len() + 1,
        forall|j: int| 0 <= j < pre.len() ==> #[trigger] cur[j] == pre[j],
        cur[pre.len() as int]@ == k,
    ensures
        names_distinct(cur),
        names_valid(cur),
        forall|k2: Seq<u8>| names_has(cur, k2) <==> (names_has(pre, k2) || k2 == k),
{
    assert forall|i2: int, j2: int|
        0 <= i2 < cur.len() && 0 <= j2 < cur.len() && i2 != j2 implies (#[trigger] cur[i2])@ != (
    #[trigger] cur[j2])@ by {
        if i2 < pre.len() && j2 < pre.len() {
        } else if i2 == pre.len() {
            if cur[j2]@ == k {
                assert(pre[j2]@ == k);
                assert(names_has(pre, k));
            }
        } else {
            if cur[i2]@ == k {
                assert(pre[i2]@ == k);
                assert(names_has(pre, k));
            }
        }
    }
    assert forall|k2: Seq<u8>| names_has(cur, k2) implies (names_has(pre, k2) || k2 == k) by {
        let j = choose|j: int| 0 <= j < cur.len() && (#[trigger] cur[j])@ == k2;
        if j < pre.len() {
            assert(pre[j]@ == k2);
        }
    }
    assert forall|k2: Seq<u8>| (names_has(pre, k2) || k2 == k) implies names_has(cur, k2) by {
        if k2 == k {
            assert(cur[pre.len() as int]@ == k2);
        } else {
            let j = choose|j: int| 0 <= j < pre.len() && (#[trigger] pre[j])@ == k2;
            assert(cur[j]@ == k2);
        }
    }
}

/// Removing the name at `i` keeps a name list well formed; presence of
/// every other name carries over, and `pre[i]` is gone.
proof fn lemma_names_removed(pre: Seq<Vec<u8>>, cur: Seq<Vec<u8>>, i: int)
    requires
        names_distinct(pre),
        names_valid(pre),
        0 <= i < pre.len(),
        cur == pre.remove(i),
    ensures
        names_distinct(cur),
        names_valid(cur),
        forall|k2: Seq<u8>| names_has(cur, k2) <==> (names_has(pre, k2) && k2 != pre[i]@),
{
    pre.remove_ensures(i);
    assert forall|i2: int, j2: int|
        0 <= i2 < cur.len() && 0 <= j2 < cur.len() && i2 != j2 implies (#[trigger] cur[i2])@ != (
    #[trigger] cur[j2])@ by {
        let oi: int = if i2 < i {
            i2
        } else {
            i2 + 1
        };
        let oj: int = if j2 < i {
            j2
        } else {
            j2 + 1
        };
        assert(cur[i2] == pre[oi]);
        assert(cur[j2] == pre[oj]);
    }
    assert forall|i2: int| 0 <= i2 < cur.len() implies valid_key((#[trigger] cur[i2])@) by {
        let oi: int = if i2 < i {
            i2
        } else {
            i2 + 1
        };
        assert(cur[i2] == pre[oi]);
    }
    assert forall|k2: Seq<u8>| names_has(cur, k2) implies (names_has(pre, k2) && k2 != pre[i]@) by {
        let j = choose|j: int| 0 <= j < cur.len() && (#[trigger] cur[j])@ == k2;
        let oj: int = if j < i {
            j
        } else {
            j + 1
        };
        assert(cur[j] == pre[oj]);
        assert(pre[oj]@ == k2);
        assert(pre[oj]@ != pre[i]@);
    }
    assert forall|k2: Seq<u8>| names_has(pre, k2) && k2 != pre[i]@ implies names_has(cur, k2) by {
        let j = choose|j: int| 0 <= j < pre.len() && (#[trigger] pre[j])@ == k2;
        assert(j != i);
        let nj: int = if j < i {
            j
        } else {
            j - 1
        };
        assert(cur[nj] == pre[j]);
        assert(cur[nj]@ == k2);
    }
}

/// Outcome of a cache lookup. Only committed entries produce a hit; a fill
/// in progress is never visible here.
pub enum Lookup {
    /// The committed content and its size.
    Hit(Vec<u8>, usize),
    Miss,
}

/// A scoped write resource bound to one temporary artifact, distinct from
/// the final path of its key. Writes are strictly sequential. Exactly one
/// of `CacheStore::commit` / `CacheStore::abort` consumes every handle; a
/// caller that stops using one part way through must release it through
/// `abort`, which removes the temporary artifact unconditionally.
pub struct FillHandle {
    key: Vec<u8>,
    buf: Vec<u8>,
}

impl FillHandle {
    /// The key this handle fills.
    pub closed spec fn key(&self) -> Seq<u8> {
        self.key@
    }

    /// The bytes appended so far: the temporary artifact's content.
    pub closed spec fn buf(&self) -> Seq<u8> {
        self.buf@
    }

    pub open spec fn wf(&self) -> bool {
        valid_key(self.key())
    }

    /// Appends one chunk at the end of the temporary artifact. `io_ok` is
    /// the outcome of the disk write the caller performed; on failure the
    /// artifact's content is unchanged.
    pub fn append(&mut self, chunk: &Vec<u8>, io_ok: bool) -> (r: Result<usize, ProxyError>)
        ensures
            final(self).key() == old(self).key(),
            io_ok ==> (r matches Ok(n) && n == chunk@.len()
                && final(self).buf() == old(self).buf() + chunk@),
            !io_ok ==> (r matches Err(e) && e == ProxyError::CacheIOError && final(self).buf()
                == old(self).buf()),
    {
        if !io_ok {
            return Err(ProxyError::CacheIOError);
        }
        append_bytes(&mut self.buf, chunk);
        Ok(chunk.len())
    }
}

/// The cache store's state: committed entries and live temporary artifacts.
pub struct CacheStore {
    entries: Vec<(Vec<u8>, Vec<u8>)>,
    fills: Vec<Vec<u8>>,
}

impl CacheStore {
    /// The committed entries, as a map from key to content. Exactly these
    /// are visible through `lookup`.
    pub closed spec fn committed(&self) -> Map<Seq<u8>, Seq<u8>> {
        Map::new(
            |k: Seq<u8>| seq_has_key(self.entries@, k),
            |k: Seq<u8>| seq_key_value(self.entries@, k),
        )
    }

    /// The keys whose temporary fill artifact currently exists.
    pub closed spec fn temps(&self) -> Set<Seq<u8>> {
        Set::new(|k: Seq<u8>| names_has(self.fills@, k))
    }

    /// Internal well-formedness: keys are unique and valid on both sides.
    pub closed spec fn wf(&self) -> bool {
        &&& seq_keys_distinct(self.entries@)
        &&& seq_keys_valid(self.entries@)
        &&& names_distinct(self.fills@)
        &&& names_valid(self.fills@)
    }

    /// An empty store: nothing committed, no temporary artifact.
    pub fn new() -> (s: CacheStore)
        ensures
            s.wf(),
            s.committed() == Map::<Seq<u8>, Seq<u8>>::empty(),
            s.temps() == Set::<Seq<u8>>::empty(),
    {
        let s = CacheStore { entries: Vec::new(), fills: Vec::new() };
        proof {
            assert(s.committed() =~= Map::<Seq<u8>, Seq<u8>>::empty());
            assert(s.temps() =~= Set::<Seq<u8>>::empty());
        }
        s
    }

    /// Looks a key up. A hit returns exactly the committed content and its
    /// size; a fill in progress never produces a hit.
    pub fn lookup(&self, key: &CacheKey) -> (r: Lookup)
        requires
            self.wf(),
        ensures
            match r {
                Lookup::Hit(bytes, size) => self.committed().contains_key(key@) && bytes@
                    == self.committed()[key@] && size == bytes@.len(),
                Lookup::Miss => !self.committed().contains_key(key@),
            },
    {
        let n = self.entries.len();
        let mut i: usize = 0;
        while i < n
            invariant
                self.wf(),
                n == self.entries@.len(),
                i <= n,
                forall|j: int| 0 <= j < i ==> (#[trigger] self.entries@[j]).0@ != key@,
            decreases n - i,
        {
            if bytes_eq(&self.entries[i].0, key.as_bytes()) {
                let bytes = copy_bytes(&self.entries[i].1);
                proof {
                    lemma_at(self.entries@, key@, i as int);
                }
                let size = bytes.len();
                return Lookup::Hit(bytes, size);
            }
            i += 1;
        }
        assert(!seq_has_key(self.entries@, key@));
        Lookup::Miss
    }

    fn find_fill_index(&self, key: &Vec<u8>) -> (r: Option<usize>)
        ensures
            match r {
                Some(i) => i < self.fills@.len() && self.fills@[i as int]@ == key@,
                None => !names_has(self.fills@, key@),
            },
    {
        let n = self.fills.len();
        let mut i: usize = 0;
        while i < n
            invariant
                n == self.fills@.len(),
                i <= n,
                forall|j: int| 0 <= j < i ==> (#[trigger] self.fills@[j])@ != key@,
            decreases n - i,
        {
            if bytes_eq(&self.fills[i], key) {
                return Some(i);
            }
            i += 1;
        }
        None
    }

    fn find_entry_index(&self, key: &Vec<u8>) -> (r: Option<usize>)
        ensures
            match r {
                Some(i) => i < self.entries@.len() && self.entries@[i as int].0@ == key@,
                None => !seq_has_key(self.entries@, key@),
            },
    {
        let n = self.entries.len();
        let mut i: usize = 0;
        while i < n
            invariant
                n == self.entries@.len(),
                i <= n,
                forall|j: int| 0 <= j < i ==> (#[trigger] self.entries@[j]).0@ != key@,
            decreases n - i,
        {
            if bytes_eq(&self.entries[i].0, key) {
                return Some(i);
            }
            i += 1;
        }
        None
    }

    /// Whether a temporary fill artifact for `key` currently exists on
    /// disk. Temporary artifacts are never visible through `lookup`.
    pub fn has_temp_artifact(&self, key: &CacheKey) -> (r: bool)
        ensures
            r == self.temps().contains(key@),
    {
        match self.find_fill_index(key.as_bytes()) {
            Some(i) => {
                proof {
                    assert(names_has(self.fills@, key@));
                }
                true
            },
            None => false,
        }
    }

    /// Starts a fill for `key`: creates the temporary artifact, distinct
    /// from the final path, and hands out the scoped write resource bound
    /// to it. Refused with `FillConflict` exactly while a temporary
    /// artifact for the same key already exists (unreachable under the
    /// coordinator's exclusivity; kept as a defensive guard). Committed
    /// entries are untouched either way.
    pub fn begin_fill(&mut self, key: &CacheKey) -> (r: Result<FillHandle, ProxyError>)
        requires
            old(self).wf(),
            key.wf(),
        ensures
            final(self).wf(),
            final(self).committed() == old(self).committed(),
            match r {
                Ok(h) => {
                    &&& !old(self).temps().contains(key@)
                    &&& h.wf()
                    &&& h.key() == key@
                    &&& h.buf() == Seq::<u8>::empty()
                    &&& final(self).temps() == old(self).temps().insert(key@)
                },
                Err(e) => {
                    &&& e == ProxyError::FillConflict
                    &&& old(self).temps().contains(key@)
                    &&& final(self).temps() == old(self).temps()
                },
            },
    {
        match self.find_fill_index(key.as_bytes()) {
            Some(_) => Err(ProxyError::FillConflict),
            None => {
                let ghost pre = self.fills@;
                let name = copy_bytes(key.as_bytes());
                self.fills.push(name);
                proof {
                    lemma_names_push(pre, self.fills@, key@);
                    assert(self.temps() =~= old(self).temps().insert(key@));
                    assert(self.committed() =~= old(self).committed());
                }
                Ok(FillHandle { key: copy_bytes(key.as_bytes()), buf: Vec::new() })
            },
        }
    }

    /// Removes `key` from the list of temporary artifacts, if present.
    fn drop_fill(&mut self, key: &Vec<u8>)
        requires
            old(self).wf(),
        ensures
            final(self).wf(),
            final(self).committed() == old(self).committed(),
            final(self).temps() == old(self).temps().remove(key@),
    {
        let ghost pre = self.fills@;
        match self.find_fill_index(key) {
            Some(i) => {
                self.fills.remove(i);
                proof {
                    lemma_names_removed(pre, self.fills@, i as int);
                    assert(self.temps() =~= old(self).temps().remove(key@));
                    assert(self.committed() =~= old(self).committed());
                }
            },
            None => {
                proof {
                    assert(self.temps() =~= old(self).temps().remove(key@));
                }
            },
        }
    }

    /// Atomically publishes the handle's temporary artifact to its key's
    /// final path. `io_ok` is the outcome of the caller's rename: on
    /// success the entry becomes committed, whole, and immediately visible
    /// to `lookup`; on failure nothing is published and `CacheIOError`
    /// comes back. The temporary artifact is gone either way, so exactly
    /// one of commit and abort takes effect for every handle.
    pub fn commit(&mut self, h: FillHandle, io_ok: bool) -> (r: Result<(), ProxyError>)
        requires
            old(self).wf(),
            h.wf(),
        ensures
            final(self).wf(),
            final(self).temps() == old(self).temps().remove(h.key()),
            io_ok ==> r is Ok && final(self).committed() == old(self).committed().insert(
                h.key(),
                h.buf(),
            ),
            !io_ok ==> (r matches Err(e) && e == ProxyError::CacheIOError
                && final(self).committed() == old(self).committed()),
            forall|k2: Seq<u8>|
                old(self).committed().contains_key(k2) ==> final(self).committed().contains_key(
                    k2,
                ),
    {
        let FillHandle { key, buf } = h;
        self.drop_fill(&key);
        if !io_ok {
            return Err(ProxyError::CacheIOError);
        }
        self.put_entry(key, buf);
        Ok(())
    }

    /// Unconditionally removes the handle's temporary artifact; nothing is
    /// published and committed entries are untouched.
    pub fn abort(&mut self, h: FillHandle)
        requires
            old(self).wf(),
        ensures
            final(self).wf(),
            final(self).committed() == old(self).committed(),
            final(self).temps() == old(self).temps().remove(h.key()),
    {
        let FillHandle { key, buf: _ } = h;
        self.drop_fill(&key);
    }

    /// Replaces or inserts the committed entry for `key`.
    fn put_entry(&mut self, key: Vec<u8>, value: Vec<u8>)
        requires
            old(self).wf(),
            valid_key(key@),
        ensures
            final(self).wf(),
            final(self).temps() == old(self).temps(),
            final(self).committed() == old(self).committed().insert(key@, value@),
    {
        let ghost pre = self.entries@;
        let ghost kview = key@;
        let ghost vview = value@;
        match self.find_entry_index(&key) {
            Some(i) => {
                self.entries.remove(i);
                proof {
                    lemma_entries_removed(pre, self.entries@, i as int);
                }
            },
            None => {},
        }
        let ghost mid = self.entries@;
        assert(!seq_has_key(mid, kview));
        assert(seq_keys_distinct(mid) && seq_keys_valid(mid));
        assert(forall|k2: Seq<u8>|
            k2 != kview ==> (seq_has_key(mid, k2) <==> seq_has_key(pre, k2)));
        assert(forall|k2: Seq<u8>|
            k2 != kview && seq_has_key(pre, k2) ==> seq_key_value(mid, k2) == seq_key_value(
                pre,
                k2,
            ));
        self.entries.push((key, value));
        proof {
            lemma_entries_push(mid, self.entries@, kview, vview);
            assert forall|k2: Seq<u8>|
                self.committed().contains_key(k2) <==> old(self).committed().insert(
                    kview,
                    vview,
                ).contains_key(k2) by {}
            assert forall|k2: Seq<u8>|
                self.committed().contains_key(k2) implies self.committed()[k2]
                == old(self).committed().insert(kview, vview)[k2] by {
                if k2 != kview {
                    assert(seq_key_value(self.entries@, k2) == seq_key_value(mid, k2));
                    assert(seq_key_value(mid, k2) == seq_key_value(pre, k2));
                }
            }
            assert(self.committed() =~= old(self).committed().insert(kview, vview));
            assert(self.temps() =~= old(self).temps());
        }
    }
}

/// One observable store transition of the committed map: an operation
/// either leaves it unchanged or publishes one entry.
pub open spec fn publish_step(pre: Map<Seq<u8>, Seq<u8>>, post: Map<Seq<u8>, Seq<u8>>) -> bool {
    post == pre || exists|k: Seq<u8>, v: Seq<u8>| post == pre.insert(k, v)
}

/// Committed entries are permanent: every store operation either keeps the
/// committed map or inserts into it, and nothing ever evicts, so a key
/// present in some state is present in every later state — a commit is
/// never followed by a lookup miss for the same key.
pub proof fn lemma_committed_permanent(hist: Seq<Map<Seq<u8>, Seq<u8>>>, k: Seq<u8>)
    requires
        hist.len() > 0,
        hist[0].contains_key(k),
        forall|i: int|
            0 <= i && i + 1 < hist.len() ==> publish_step(#[trigger] hist[i], hist[i + 1]),
    ensures
        hist[hist.len() - 1].contains_key(k),
    decreases hist.len(),
{
    if hist.len() > 1 {
        assert(publish_step(hist[0], hist[1]));
        assert(hist[1].contains_key(k)) by {
            if hist[1] != hist[0] {
                let (k2, v2) = choose|k2: Seq<u8>, v2: Seq<u8>| hist[1] == hist[0].insert(k2, v2);
                assert(hist[0].insert(k2, v2).contains_key(k));
            }
        }
        let rest = hist.subrange(1, hist.len() as int);
        assert(rest[0] == hist[1]);
        assert forall|i: int|
            0 <= i && i + 1 < rest.len() implies publish_step(#[trigger] rest[i], rest[i + 1]) by {
            assert(rest[i] == hist[i + 1]);
            assert(rest[i + 1] == hist[i + 2]);
            assert(publish_step(hist[i + 1], hist[i + 2]));
        }
        lemma_committed_permanent(rest, k);
        assert(rest[rest.len() - 1] == hist[hist.len() - 1]);
    }
}

/// Round-trip fidelity: once a fill for `k` is committed with content `v`
/// — exactly the bytes the leader's fetch delivered — a lookup of `k` in
/// the new state hits and returns exactly `v`.
pub proof fn lemma_round_trip(
    pre: Map<Seq<u8>, Seq<u8>>,
    post: Map<Seq<u8>, Seq<u8>>,
    k: Seq<u8>,
    v: Seq<u8>,
)
    requires
        post == pre.insert(k, v),
    ensures
        post.contains_key(k),
        post[k] == v,
{
}

} // verus!
