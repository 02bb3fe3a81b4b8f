//! The singleflight coordinator: at most one populate operation per key.
//!
//! The first requester of an uncached key becomes the leader — it alone
//! fetches from the origin and drives the tee populator — and every
//! requester arriving while that session is live becomes a follower of it.
//! Only the session's terminal outcome frees the key, and a fresh session
//! may start immediately afterwards whatever the outcome was: a failed
//! fetch is never cached as a negative result. In the surrounding program
//! this table is guarded by one short critical section around each
//! operation, never held across I/O.

use vstd::prelude::*;

use crate::bytes::{bytes_eq, copy_bytes};
use crate::key::CacheKey;

verus! {

/// The role a requester is given for a key.
#[derive(Clone, Copy, Debug, PartialEq, Eq, Structural)]
pub enum Role {
    /// Must fetch from the origin and drive the fill session.
    Leader,
    /// Attaches to the live fill session of the current leader.
    Follower,
}

/// The role a request for key `k` receives when `active` is the set of
/// keys with a live session.
pub open spec fn role_for(active: Set<Seq<u8>>, k: Seq<u8>) -> Role {
    if active.contains(k) {
        Role::Follower
    } else {
        Role::Leader
    }
}

spec fn keys_has(s: Seq<Vec<u8>>, k: Seq<u8>) -> bool {
    exists|i: int| 0 <= i < s.len() && (#[trigger] s[i])@ == k
}

spec fn keys_distinct(s: Seq<Vec<u8>>) -> bool {
    forall|i: int, j: int|
        0 <= i < s.len() && 0 <= j < s.len() && i != j ==> (#[trigger] s[i])@ != (
        #[trigger] s[j])@
}

/// The per-key admission table.
pub struct Coordinator {
    live: Vec<Vec<u8>>,
}

impl Coordinator {
    /// The keys with a live fill session.
    pub closed spec fn active(&self) -> Set<Seq<u8>> {
        Set::new(|k: Seq<u8>| keys_has(self.live@, k))
    }

    pub closed spec fn wf(&self) -> bool {
        keys_distinct(self.live@)
    }

    /// A coordinator with no live session.
    pub fn new() -> (c: Coordinator)
        ensures
            c.wf(),
            c.active() == Set::<Seq<u8>>::empty(),
    {
        let c = Coordinator { live: Vec::new() };
        proof {
            assert(c.active() =~= Set::<Seq<u8>>::empty());
        }
        c
    }

    fn find(&self, key: &Vec<u8>) -> (r: Option<usize>)
        ensures
            match r {
                Some(i) => i < self.live@.len() && self.live@[i as int]@ == key@,
                None => !keys_has(self.live@, key@),
            },
    {
        let n = self.live.len();
        let mut i: usize = 0;
        while i < n
            invariant
                n == self.live@.len(),
                i <= n,
                forall|j: int| 0 <= j < i ==> (#[trigger] self.live@[j])@ != key@,
            decreases n - i,
        {
            if bytes_eq(&self.live[i], key) {
                return Some(i);
            }
            i += 1;
        }
        None
    }

    /// Admits a requester for `key`: the leader if and only if no session
    /// for the key is live, a follower of the live session otherwise.
    /// Either way the key is live afterwards.
    pub fn request(&mut self, key: &CacheKey) -> (r: Role)
        requires
            old(self).wf(),
            key.wf(),
        ensures
            final(self).wf(),
            r == role_for(old(self).active(), key@),
            final(self).active() == old(self).active().insert(key@),
    {
        match self.find(key.as_bytes()) {
            Some(_) => {
                proof {
                    assert(self.active() =~= old(self).active().insert(key@));
                }
                Role::Follower
            },
            None => {
                let ghost pre = self.live@;
                self.live.push(copy_bytes(key.as_bytes()));
                proof {
                    assert forall|i2: int, j2: int|
                        0 <= i2 < self.live@.len() && 0 <= j2 < self.live@.len() && i2
                            != j2 implies (#[trigger] self.live@[i2])@ != (
                    #[trigger] self.live@[j2])@ by {
                        if i2 < pre.len() && j2 < pre.len() {
                        } else if i2 == pre.len() {
                            if self.live@[j2]@ == key@ {
                                assert(pre[j2]@ == key@);
                                assert(keys_has(pre, key@));
                            }
                        } else {
                            if self.live@[i2]@ == key@ {
                                assert(pre[i2]@ == key@);
                                assert(keys_has(pre, key@));
                            }
                        }
                    }
                    assert forall|k2: Seq<u8>| keys_has(self.live@, k2) implies (keys_has(pre, k2)
                        || k2 == key@) by {
                        let j = choose|j: int|
                            0 <= j < self.live@.len() && (#[trigger] self.live@[j])@ == k2;
                        if j < pre.len() {
                            assert(pre[j]@ == k2);
                        }
                    }
                    assert forall|k2: Seq<u8>| (keys_has(pre, k2) || k2 == key@) implies keys_has(
                        self.live@,
                        k2,
                    ) by {
                        if k2 == key@ {
                            assert(self.live@[pre.len() as int]@ == k2);
                        } else {
                            let j = choose|j: int|
                                0 <= j < pre.len() && (#[trigger] pre[j])@ == k2;
                            assert(self.live@[j]@ == k2);
                        }
                    }
                    assert(self.active() =~= old(self).active().insert(key@));
                }
                Role::Leader
            },
        }
    }

    /// Frees the key once its session's outcome is terminal and delivered:
    /// the next request for the key will lead a fresh session, whatever
    /// the prior outcome was.
    pub fn finish(&mut self, key: &CacheKey)
        requires
            old(self).wf(),
        ensures
            final(self).wf(),
            final(self).active() == old(self).active().remove(key@),
    {
        let ghost pre = self.live@;
        match self.find(key.as_bytes()) {
            Some(i) => {
                self.live.remove(i);
                proof {
                    pre.remove_ensures(i as int);
                    let cur = self.live@;
                    assert forall|i2: int, j2: int|
                        0 <= i2 < cur.len() && 0 <= j2 < cur.len() && i2 != j2 implies (
                    #[trigger] cur[i2])@ != (#[trigger] cur[j2])@ by {
                        let oi: int = if i2 < i {
                            i2
                        } else {
                            i2 + 1
                        };
                        let oj: int = if j2 < i {
                            j2
                        } else {
                            j2 + 1
                        };
                        assert(cur[i2] == pre[oi]);
                        assert(cur[j2] == pre[oj]);
                    }
                    assert forall|k2: Seq<u8>| keys_has(cur, k2) implies (keys_has(pre, k2) && k2
                        != key@) by {
                        let j = choose|j: int| 0 <= j < cur.len() && (#[trigger] cur[j])@ == k2;
                        let oj: int = if j < i {
                            j
                        } else {
                            j + 1
                        };
                        assert(cur[j] == pre[oj]);
                        assert(pre[oj]@ == k2);
                        assert(pre[oj]@ != pre[i as int]@);
                    }
                    assert forall|k2: Seq<u8>| keys_has(pre, k2) && k2 != key@ implies keys_has(
                        cur,
                        k2,
                    ) by {
                        let j = choose|j: int| 0 <= j < pre.len() && (#[trigger] pre[j])@ == k2;
                        assert(j != i);
                        let nj: int = if j < i {
                            j
                        } else {
                            j - 1
                        };
                        assert(cur[nj] == pre[j]);
                        assert(cur[nj]@ == k2);
                    }
                    assert(self.active() =~= old(self).active().remove(key@));
                }
            },
            None => {
                proof {
                    assert(self.active() =~= old(self).active().remove(key@));
                }
            },
        }
    }
}

/// Admitting a series of requests, one key each, to an admission set.
pub open spec fn admit_all(active: Set<Seq<u8>>, qs: Seq<Seq<u8>>) -> Set<Seq<u8>>
    decreases qs.len(),
{
    if qs.len() == 0 {
        active
    } else {
        admit_all(active.insert(qs[0]), qs.drop_first())
    }
}

proof fn lemma_admit_all_keeps(active: Set<Seq<u8>>, qs: Seq<Seq<u8>>, k: Seq<u8>)
    requires
        active.contains(k),
    ensures
        admit_all(active, qs).contains(k),
    decreases qs.len(),
{
    if qs.len() > 0 {
        lemma_admit_all_keeps(active.insert(qs[0]), qs.drop_first(), k);
    }
}

/// Keys are independent: admitting or freeing a session for one key never
/// changes another key's role, so fetches for different keys run fully in
/// parallel while each key still has at most one.
pub proof fn lemma_cross_key_independence(active: Set<Seq<u8>>, k: Seq<u8>, k2: Seq<u8>)
    requires
        k != k2,
    ensures
        role_for(active.insert(k2), k) == role_for(active, k),
        role_for(active.remove(k2), k) == role_for(active, k),
{
}

/// Exactly one origin fetch per key within a fill window: when no session
/// for `k` is live, the first requester is the leader, and after its
/// admission every further request — `qs` is the series of keys admitted
/// while the window is open, in any order and for any keys — finds `k`
/// live and becomes a follower. Only `finish`, on the terminal outcome,
/// removes `k` again.
pub proof fn lemma_one_leader_per_window(pre: Set<Seq<u8>>, qs: Seq<Seq<u8>>, k: Seq<u8>)
    requires
        !pre.contains(k),
    ensures
        role_for(pre, k) == Role::Leader,
        role_for(admit_all(pre.insert(k), qs), k) == Role::Follower,
{
    lemma_admit_all_keeps(pre.insert(k), qs, k);
}

} // verus!
