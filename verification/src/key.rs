//! The identity of a cached program.

use vstd::prelude::*;

verus! {

/// What tells one compiled program from another: the digest of its code,
/// the protocol version it was compiled for, and whether it was compiled in
/// debug mode.
#[derive(Clone, Copy, Debug, PartialEq, Eq, Hash)]
pub struct CacheKey {
    pub module_hash: [u8; 32],
    pub version: u16,
    pub debug: bool,
}

impl CacheKey {
    pub fn new(module_hash: [u8; 32], version: u16, debug: bool) -> (key: CacheKey)
        ensures
            key.module_hash == module_hash,
            key.version == version,
            key.debug == debug,
    {
        CacheKey { module_hash, version, debug }
    }

    /// Whether two keys name the same program: all three parts agree.
    pub fn same(&self, other: &CacheKey) -> (r: bool)
        ensures
            r == (*self == *other),
    {
        if self.version != other.version || self.debug != other.debug {
            return false;
        }
        let mut i: usize = 0;
        while i < 32
            invariant
                i <= 32,
                forall|j: int| 0 <= j < i ==> self.module_hash[j] == other.module_hash[j],
            decreases 32 - i,
        {
            if self.module_hash[i] != other.module_hash[i] {
                return false;
            }
            i += 1;
        }
        assert(self.module_hash =~= other.module_hash);
        true
    }
}

} // verus!
