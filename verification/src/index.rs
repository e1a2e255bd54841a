//! The hash tables behind the overlay: the live-state index from key to
//! latest journal position, and the per-key coalescing table built during
//! commit. Both are hashbrown maps held behind trusted wrappers; Verus sees
//! them only through their contents maps.

use vstd::prelude::*;

verus! {

/// The empty state index contents.
pub open spec fn empty_index() -> Map<Seq<u8>, usize> {
    Map::empty()
}

/// The empty coalescing-table contents.
pub open spec fn empty_coalesce() -> Map<Seq<u8>, Option<(Seq<[u8; 32]>, u32)>> {
    Map::empty()
}

/// The live-state index: a hash map from 32-byte keys to journal positions.
#[verifier::external_body]
pub struct StateIndex {
    inner: hashbrown::HashMap<[u8; 32], usize>,
}

/// What the state index holds.
pub uninterp spec fn state_entries(m: StateIndex) -> Map<Seq<u8>, usize>;

impl StateIndex {
    /// Relies on `hashbrown::HashMap::new`: the fresh table is empty.
    #[verifier::external_body]
    pub fn new() -> (r: StateIndex)
        ensures
            state_entries(r) == empty_index(),
    {
        StateIndex { inner: hashbrown::HashMap::new() }
    }

    /// Relies on `hashbrown::HashMap::insert`: adds the binding, replacing
    /// any earlier one for the same key.
    #[verifier::external_body]
    pub fn insert(&mut self, key: &[u8; 32], index: usize)
        ensures
            state_entries(*final(self)) == state_entries(*old(self)).insert(key@, index),
    {
        self.inner.insert(*key, index);
    }

    /// Relies on `hashbrown::HashMap::get`: returns the binding for the key,
    /// if any.
    #[verifier::external_body]
    pub fn get(&self, key: &[u8; 32]) -> (r: Option<usize>)
        ensures
            r == if state_entries(*self).dom().contains(key@) {
                Some(state_entries(*self)[key@])
            } else {
                None::<usize>
            },
    {
        self.inner.get(key).copied()
    }

    /// Relies on `hashbrown::HashMap::remove`: drops the binding for the
    /// key, if any.
    #[verifier::external_body]
    pub fn remove(&mut self, key: &[u8; 32])
        ensures
            state_entries(*final(self)) == state_entries(*old(self)).remove(key@),
    {
        self.inner.remove(key);
    }

    /// Relies on `hashbrown::HashMap::clear`: empties the table.
    #[verifier::external_body]
    pub fn clear(&mut self)
        ensures
            state_entries(*final(self)) == empty_index(),
    {
        self.inner.clear();
    }

    /// Relies on `hashbrown::HashMap::len`: the number of bindings.
    #[verifier::external_body]
    pub fn len(&self) -> (n: usize)
        ensures
            n == state_entries(*self).dom().len(),
    {
        self.inner.len()
    }
}

/// The view of one pending write: the words and flags of a change, or
/// nothing for a removal.
pub open spec fn write_view(v: Option<(Vec<[u8; 32]>, u32)>) -> Option<(Seq<[u8; 32]>, u32)> {
    match v {
        Some((w, f)) => Some((w@, f)),
        None => None,
    }
}

/// The per-key coalescing table built during commit: a hash map from 32-byte
/// keys to the last pending write for that key.
#[verifier::external_body]
pub struct CoalesceMap {
    inner: hashbrown::HashMap<[u8; 32], Option<(Vec<[u8; 32]>, u32)>>,
}

/// What the coalescing table holds.
pub uninterp spec fn coalesce_entries(m: CoalesceMap) -> Map<
    Seq<u8>,
    Option<(Seq<[u8; 32]>, u32)>,
>;

impl CoalesceMap {
    /// Relies on `hashbrown::HashMap::new`: the fresh table is empty.
    #[verifier::external_body]
    pub fn new() -> (r: CoalesceMap)
        ensures
            coalesce_entries(r) == empty_coalesce(),
    {
        CoalesceMap { inner: hashbrown::HashMap::new() }
    }

    /// Relies on `hashbrown::HashMap::insert`: adds the binding, replacing
    /// any earlier one for the same key.
    #[verifier::external_body]
    pub fn insert(&mut self, key: &[u8; 32], value: Option<(Vec<[u8; 32]>, u32)>)
        ensures
            coalesce_entries(*final(self)) == coalesce_entries(*old(self)).insert(
                key@,
                write_view(value),
            ),
    {
        self.inner.insert(*key, value);
    }

    /// Relies on `hashbrown::HashMap::into_iter`: hands out every binding
    /// exactly once, in no particular order.
    #[verifier::external_body]
    pub fn into_entries(self) -> (r: Vec<([u8; 32], Option<(Vec<[u8; 32]>, u32)>)>)
        ensures
            forall|i: int|
                0 <= i < r@.len() ==> coalesce_entries(self).dom().contains(
                    (#[trigger] r@[i]).0@,
                ) && coalesce_entries(self)[r@[i].0@] == write_view(r@[i].1),
            forall|i: int, j: int|
                0 <= i < j < r@.len() ==> (#[trigger] r@[i]).0@ != (#[trigger] r@[j]).0@,
            forall|k: Seq<u8>|
                coalesce_entries(self).dom().contains(k) ==> exists|i: int|
                    0 <= i < r@.len() && (#[trigger] r@[i]).0@ == k,
    {
        self.inner.into_iter().collect()
    }
}

} // verus!
