//! Cache keys: validated identifiers derived from the request path.
//!
//! A key names exactly one object under the cache root, so it must not be
//! able to escape that root: the accepted byte set has no path separator of
//! any platform, the key is never empty (an empty name is no file), never
//! oversized, and holds no `..` sequence.

use vstd::prelude::*;

use crate::errors::ProxyError;

verus! {

/// Longest accepted key, in bytes.
pub const MAX_KEY_LEN: usize = 255;

/// A byte that may appear in a cache key: an ASCII letter or digit, or one
/// of the separators `.`, `-`, `_`. Path separators (`/`, `\`) are excluded,
/// so neither an absolute path nor a traversal into a parent directory can
/// be written in a key.
pub open spec fn key_byte_ok(b: u8) -> bool {
    ||| 97 <= b <= 122  // 'a' ..= 'z'
    ||| 65 <= b <= 90  // 'A' ..= 'Z'
    ||| 48 <= b <= 57  // '0' ..= '9'
    ||| b == 46  // '.'
    ||| b == 45  // '-'
    ||| b == 95  // '_'
}

/// No two adjacent dots anywhere in `s`.
pub open spec fn no_dot_dot(s: Seq<u8>) -> bool {
    forall|j: int| 0 <= j && j + 1 < s.len() ==> (#[trigger] s[j]) != 46 || s[j + 1] != 46
}

/// A safe cache key: non-empty, of bounded length, drawn from the safe byte
/// set, and free of `..`.
pub open spec fn valid_key(s: Seq<u8>) -> bool {
    &&& 0 < s.len() <= MAX_KEY_LEN
    &&& forall|i: int| 0 <= i < s.len() ==> key_byte_ok(#[trigger] s[i])
    &&& no_dot_dot(s)
}

/// A validated cache key. Values of this type exist only through
/// [`CacheKey::new`], so every one satisfies [`valid_key`].
pub struct CacheKey {
    bytes: Vec<u8>,
}

impl View for CacheKey {
    type V = Seq<u8>;

    closed spec fn view(&self) -> Seq<u8> {
        self.bytes@
    }
}

impl CacheKey {
    /// The invariant every constructed key satisfies.
    pub open spec fn wf(&self) -> bool {
        valid_key(self@)
    }

    /// Validates a raw request-derived name into a cache key.
    ///
    /// Returns `Ok` exactly on valid keys, and `KeyInvalid` on every other
    /// input: empty or oversized names, bytes outside the safe set (which
    /// covers absolute paths and any path separator), and `..` sequences.
    pub fn new(raw: Vec<u8>) -> (r: Result<CacheKey, ProxyError>)
        ensures
            match r {
                Ok(k) => valid_key(raw@) && k@ == raw@ && k.wf(),
                Err(e) => e == ProxyError::KeyInvalid && !valid_key(raw@),
            },
    {
        if raw.len() == 0 || raw.len() > MAX_KEY_LEN {
            return Err(ProxyError::KeyInvalid);
        }
        let n = raw.len();
        let mut i: usize = 0;
        while i < n
            invariant
                n == raw@.len(),
                i <= n,
                forall|j: int| 0 <= j < i ==> key_byte_ok(#[trigger] raw@[j]),
                forall|j: int| 0 <= j < i && j + 1 < n ==> (#[trigger] raw@[j]) != 46 || raw@[j
                    + 1] != 46,
            decreases n - i,
        {
            let b = raw[i];
            let ok = (97 <= b && b <= 122) || (65 <= b && b <= 90) || (48 <= b && b <= 57) || b
                == 46 || b == 45 || b == 95;
            if !ok {
                return Err(ProxyError::KeyInvalid);
            }
            if b == 46 && i + 1 < n && raw[i + 1] == 46 {
                return Err(ProxyError::KeyInvalid);
            }
            i += 1;
        }
        Ok(CacheKey { bytes: raw })
    }

    /// The key's bytes.
    pub fn as_bytes(&self) -> (r: &Vec<u8>)
        ensures
            r@ == self@,
    {
        &self.bytes
    }

    /// A fresh key naming the same object.
    pub fn duplicate(&self) -> (r: CacheKey)
        ensures
            r@ == self@,
            r.wf() == self.wf(),
    {
        CacheKey { bytes: crate::bytes::copy_bytes(&self.bytes) }
    }
}

} // verus!
