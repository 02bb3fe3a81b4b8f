//! The configuration snapshot and the exact-match path rewrite rules.
//!
//! A snapshot is immutable: reload builds a whole new snapshot and swaps a
//! shared reference to it as one indivisible step (the swap belongs to the
//! surrounding program), so a request observes exactly one snapshot for its
//! lifetime and never a mixture of old and new fields. Parsing the
//! configuration file is an external collaborator's job; the snapshot holds
//! plain values only.

use vstd::prelude::*;

use crate::bytes::{bytes_eq, copy_bytes};

verus! {

/// One immutable configuration snapshot. `aws` (origin endpoint and region
/// selection) and `cache` (the cache root directory) are association lists
/// of name/value settings; `redirect` is the ordered list of exact-match
/// path rewrite rules, each mapping one whole path to another.
pub struct AppConfig {
    pub aws: Vec<(Vec<u8>, Vec<u8>)>,
    pub cache: Vec<(Vec<u8>, Vec<u8>)>,
    pub redirect: Vec<(Vec<u8>, Vec<u8>)>,
}

/// The first value under `name` in an association list, if any.
pub open spec fn setting_of(pairs: Seq<(Vec<u8>, Vec<u8>)>, name: Seq<u8>) -> Option<Seq<u8>>
    decreases pairs.len(),
{
    if pairs.len() == 0 {
        None
    } else if pairs[0].0@ == name {
        Some(pairs[0].1@)
    } else {
        setting_of(pairs.drop_first(), name)
    }
}

/// Looks a setting up by name: the first matching pair wins.
pub fn lookup_setting(pairs: &Vec<(Vec<u8>, Vec<u8>)>, name: &Vec<u8>) -> (r: Option<Vec<u8>>)
    ensures
        match r {
            Some(v) => setting_of(pairs@, name@) == Some(v@),
            None => setting_of(pairs@, name@) is None,
        },
{
    let n = pairs.len();
    let mut i: usize = 0;
    proof {
        assert(pairs@.skip(0) =~= pairs@);
    }
    while i < n
        invariant
            n == pairs@.len(),
            i <= n,
            setting_of(pairs@, name@) == setting_of(pairs@.skip(i as int), name@),
        decreases n - i,
    {
        proof {
            assert(pairs@.skip(i as int).drop_first() =~= pairs@.skip(i as int + 1));
            assert(pairs@.skip(i as int)[0] == pairs@[i as int]);
        }
        if bytes_eq(&pairs[i].0, name) {
            return Some(copy_bytes(&pairs[i].1));
        }
        i += 1;
    }
    proof {
        assert(pairs@.skip(n as int) =~= Seq::<(Vec<u8>, Vec<u8>)>::empty());
    }
    None
}

/// The path after the ordered exact-match rewrite rules: each rule in
/// order replaces the current path when its pattern equals it whole, so a
/// later rule can chain on an earlier rule's result.
pub open spec fn rewritten(rules: Seq<(Vec<u8>, Vec<u8>)>, path: Seq<u8>) -> Seq<u8>
    decreases rules.len(),
{
    if rules.len() == 0 {
        path
    } else {
        rewritten(
            rules.drop_first(),
            if rules[0].0@ == path {
                rules[0].1@
            } else {
                path
            },
        )
    }
}

/// Applies the rewrite rules to a request path.
pub fn rewrite_path(rules: &Vec<(Vec<u8>, Vec<u8>)>, path: Vec<u8>) -> (r: Vec<u8>)
    ensures
        r@ == rewritten(rules@, path@),
{
    let ghost p0 = path@;
    let mut cur = path;
    let n = rules.len();
    let mut i: usize = 0;
    proof {
        assert(rules@.skip(0) =~= rules@);
    }
    while i < n
        invariant
            n == rules@.len(),
            i <= n,
            rewritten(rules@, p0) == rewritten(rules@.skip(i as int), cur@),
        decreases n - i,
    {
        proof {
            assert(rules@.skip(i as int).drop_first() =~= rules@.skip(i as int + 1));
            assert(rules@.skip(i as int)[0] == rules@[i as int]);
        }
        if bytes_eq(&rules[i].0, &cur) {
            cur = copy_bytes(&rules[i].1);
        }
        i += 1;
    }
    proof {
        assert(rules@.skip(n as int) =~= Seq::<(Vec<u8>, Vec<u8>)>::empty());
    }
    cur
}

/// Applies one reload attempt: a successfully rebuilt snapshot replaces
/// the current one whole; a failed reload leaves the active snapshot in
/// effect, so no request ever runs without a valid configuration.
pub fn apply_reload(current: AppConfig, loaded: Option<AppConfig>) -> (r: AppConfig)
    ensures
        match loaded {
            Some(c) => r == c,
            None => r == current,
        },
{
    match loaded {
        Some(c) => c,
        None => current,
    }
}

} // verus!
