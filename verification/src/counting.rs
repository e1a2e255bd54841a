//! Instrumented stores: one that counts the writes reaching it, so a caller
//! can observe how many trie operations a commit performed, and one that
//! rejects every write, for exercising the overlay's error path.

use vstd::prelude::*;

use crate::keys::zeros;
use crate::memtrie::MemoryTrie;
use crate::trie::{empty_contents, TrieError, TrieStorage};

verus! {

/// A store that forwards to an in-memory trie and counts the writes and
/// removals that reach it.
pub struct CountingTrie {
    pub inner: MemoryTrie,
    pub writes: u64,
}

impl CountingTrie {
    /// An empty counting store.
    pub fn new() -> (r: CountingTrie)
        ensures
            r.wf(),
            r.contents() == empty_contents(),
            r.writes == 0,
    {
        let r = CountingTrie { inner: MemoryTrie::new(), writes: 0 };
        proof {
            assert(r.contents() =~= empty_contents());
        }
        r
    }
}

impl TrieStorage for CountingTrie {
    open spec fn wf(&self) -> bool {
        self.inner.wf()
    }

    open spec fn contents(&self) -> Map<Seq<u8>, (Seq<[u8; 32]>, u32)> {
        self.inner.contents()
    }

    open spec fn root_of(&self) -> Seq<u8> {
        self.inner.root_of()
    }

    open spec fn infallible() -> bool {
        true
    }

    fn get(&self, key: &[u8; 32]) -> (r: Option<Vec<[u8; 32]>>) {
        self.inner.get(key)
    }

    fn update(&mut self, key: &[u8; 32], flags: u32, value: &Vec<[u8; 32]>) -> (r: Result<
        (),
        TrieError,
    >) {
        if self.writes < u64::MAX {
            self.writes = self.writes + 1;
        }
        self.inner.update(key, flags, value)
    }

    fn remove(&mut self, key: &[u8; 32]) -> (r: Result<(), TrieError>) {
        if self.writes < u64::MAX {
            self.writes = self.writes + 1;
        }
        self.inner.remove(key)
    }

    fn compute_root(&self) -> (r: [u8; 32]) {
        self.inner.compute_root()
    }
}

/// A store that rejects every write: reads find nothing, writes and removals
/// fail, the root never moves.
pub struct RejectingTrie {
    pub rejected: u64,
}

impl RejectingTrie {
    /// A fresh rejecting store.
    pub fn new() -> (r: RejectingTrie)
        ensures
            r.wf(),
            r.rejected == 0,
    {
        RejectingTrie { rejected: 0 }
    }
}

impl TrieStorage for RejectingTrie {
    open spec fn wf(&self) -> bool {
        true
    }

    open spec fn contents(&self) -> Map<Seq<u8>, (Seq<[u8; 32]>, u32)> {
        Map::empty()
    }

    open spec fn root_of(&self) -> Seq<u8> {
        zeros(32)
    }

    open spec fn infallible() -> bool {
        false
    }

    fn get(&self, key: &[u8; 32]) -> (r: Option<Vec<[u8; 32]>>) {
        proof {
            assert(!self.contents().dom().contains(key@));
        }
        None
    }

    fn update(&mut self, key: &[u8; 32], flags: u32, value: &Vec<[u8; 32]>) -> (r: Result<
        (),
        TrieError,
    >) {
        if self.rejected < u64::MAX {
            self.rejected = self.rejected + 1;
        }
        Err(TrieError::WriteFailed)
    }

    fn remove(&mut self, key: &[u8; 32]) -> (r: Result<(), TrieError>) {
        if self.rejected < u64::MAX {
            self.rejected = self.rejected + 1;
        }
        Err(TrieError::WriteFailed)
    }

    fn compute_root(&self) -> (r: [u8; 32]) {
        let r: [u8; 32] = [0u8; 32];
        proof {
            assert(r@ =~= zeros(32));
        }
        r
    }
}

} // verus!
