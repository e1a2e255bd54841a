//! The abstract key-value store underneath the overlay: keyed by 32-byte
//! digests, each value an ordered sequence of 32-byte words plus a 32-bit
//! flags tag, with a digest of the whole contents as its root.

use vstd::prelude::*;

verus! {

/// The empty store contents.
pub open spec fn empty_contents() -> Map<Seq<u8>, (Seq<[u8; 32]>, u32)> {
    Map::empty()
}

/// An error surfaced by the underlying store on a write.
#[derive(Clone, Copy, PartialEq, Eq, Structural, Debug)]
pub enum TrieError {
    /// The store rejected the write.
    WriteFailed,
}

/// The store interface the overlay needs: point reads, fallible writes and
/// removals, and a root derived from the contents alone.
pub trait TrieStorage: Sized {
    /// Well-formedness of the store's representation.
    spec fn wf(&self) -> bool;

    /// The abstract contents: a map from keys to `(words, flags)` pairs.
    spec fn contents(&self) -> Map<Seq<u8>, (Seq<[u8; 32]>, u32)>;

    /// The root the store reports for its current contents.
    spec fn root_of(&self) -> Seq<u8>;

    /// Whether writes to this store always succeed.
    spec fn infallible() -> bool;

    /// Reads the words stored under a key, if any.
    fn get(&self, key: &[u8; 32]) -> (r: Option<Vec<[u8; 32]>>)
        requires
            self.wf(),
        ensures
            match r {
                Some(v) => self.contents().dom().contains(key@) && v@ == self.contents()[key@].0,
                None => !self.contents().dom().contains(key@),
            },
    ;

    /// Writes words and flags under a key, replacing any earlier value.
    fn update(&mut self, key: &[u8; 32], flags: u32, value: &Vec<[u8; 32]>) -> (r: Result<
        (),
        TrieError,
    >)
        requires
            old(self).wf(),
        ensures
            final(self).wf(),
            r is Ok ==> final(self).contents() == old(self).contents().insert(
                key@,
                (value@, flags),
            ),
            r is Err ==> final(self).contents() == old(self).contents() && final(self).root_of()
                == old(self).root_of(),
            Self::infallible() ==> r is Ok,
    ;

    /// Removes the entry under a key, if present.
    fn remove(&mut self, key: &[u8; 32]) -> (r: Result<(), TrieError>)
        requires
            old(self).wf(),
        ensures
            final(self).wf(),
            r is Ok ==> final(self).contents() == old(self).contents().remove(key@),
            r is Err ==> final(self).contents() == old(self).contents() && final(self).root_of()
                == old(self).root_of(),
            Self::infallible() ==> r is Ok,
    ;

    /// Computes the root of the current contents.
    fn compute_root(&self) -> (r: [u8; 32])
        requires
            self.wf(),
        ensures
            r@ == self.root_of(),
    ;
}

/// Copies a sequence of 32-byte words.
pub(crate) fn copy_words(v: &Vec<[u8; 32]>) -> (r: Vec<[u8; 32]>)
    ensures
        r@ == v@,
{
    let mut r: Vec<[u8; 32]> = Vec::new();
    let mut i: usize = 0;
    while i < v.len()
        invariant
            i <= v@.len(),
            r@ =~= v@.subrange(0, i as int),
        decreases v@.len() - i,
    {
        r.push(v[i]);
        i = i + 1;
        proof {
            assert(r@ =~= v@.subrange(0, i as int));
        }
    }
    proof {
        assert(r@ =~= v@);
    }
    r
}

} // verus!
