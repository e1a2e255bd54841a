//! The overlay's laws, stated once and proved for every store and every
//! input: consistency of the live-state index, latest-wins indexing, what a
//! rollback restores, what a commit writes, and when a read is cold.

use vstd::prelude::*;

use crate::journal::{
    apply_writes, effective, state_matches, write_value, JournalEvent, JournaledTrie,
};
use crate::trie::TrieStorage;

verus! {

/// Index consistency: every key present in the state index points at an
/// event of the journal that carries that very key.
pub proof fn lemma_state_index_consistent<DB: TrieStorage>(j: JournaledTrie<DB>, k: Seq<u8>)
    requires
        j.inv(),
        j.state_map().dom().contains(k),
    ensures
        j.state_map()[k] < j.journal@.len(),
        j.journal@[j.state_map()[k] as int].skey() == k,
{
}

/// Latest wins: the index entry for the key of any journal event sits at or
/// past that event.
pub proof fn lemma_latest_wins<DB: TrieStorage>(j: JournaledTrie<DB>, i: int)
    requires
        j.inv(),
        0 <= i < j.journal@.len(),
    ensures
        j.state_map().dom().contains(j.journal@[i].skey()),
        j.state_map()[j.journal@[i].skey()] >= i,
{
    let k = j.journal@[i].skey();
    if j.state_map()[k] < i {
        assert(j.journal@[i].skey() != k);
    }
}

/// The state index is determined by the journal: two indices matching the
/// same journal are equal.
pub proof fn lemma_state_determined(
    j: Seq<JournalEvent>,
    s1: Map<Seq<u8>, usize>,
    s2: Map<Seq<u8>, usize>,
)
    requires
        state_matches(j, s1),
        state_matches(j, s2),
    ensures
        s1 == s2,
{
    assert forall|k: Seq<u8>| #![trigger s1.dom().contains(k)] s1.dom().contains(k) implies s2.dom().contains(k) && s1[k]
        == s2[k] by {
        assert(j[s1[k] as int].skey() == k);
        assert(s2.dom().contains(k));
        if s1[k] < s2[k] {
            assert(j[s2[k] as int].skey() != k);
        }
        if s2[k] < s1[k] {
            assert(j[s1[k] as int].skey() != k);
        }
    }
    assert forall|k: Seq<u8>| #![trigger s2.dom().contains(k)] s2.dom().contains(k) implies s1.dom().contains(k) by {
        assert(j[s2[k] as int].skey() == k);
    }
    assert(s1.dom() =~= s2.dom());
    assert(s1 =~= s2);
}

/// What a rollback restores: once the journal, the logs and the trie
/// contents are back to their captured state — which `rollback`'s contract
/// gives when no commit intervened — every read observes exactly what it
/// observed at capture time, and the logs are the captured logs.
pub proof fn lemma_rollback_restores_observation<DB: TrieStorage>(
    pre: JournaledTrie<DB>,
    post: JournaledTrie<DB>,
    k: Seq<u8>,
)
    requires
        pre.inv(),
        post.inv(),
        post.journal@ == pre.journal@,
        post.storage.contents() == pre.storage.contents(),
    ensures
        post.read(k) == pre.read(k),
        post.state_map() == pre.state_map(),
{
    lemma_state_determined(pre.journal@, pre.state_map(), post.state_map());
}

/// The coalesced writes hold, for any key whose latest event is uncommitted,
/// exactly that latest event's outcome.
proof fn lemma_effective_latest(j: Seq<JournalEvent>, from: int, idx: int)
    requires
        0 <= from <= idx < j.len(),
        forall|m: int| idx < m < j.len() ==> (#[trigger] j[m]).skey() != j[idx].skey(),
    ensures
        effective(j, from).dom().contains(j[idx].skey()),
        effective(j, from)[j[idx].skey()] == j[idx].sval(),
    decreases j.len(),
{
    if idx == j.len() - 1 {
        assert(j.last() == j[idx]);
    } else {
        let t = j.drop_last();
        assert(t[idx] == j[idx]);
        assert forall|m: int| idx < m < t.len() implies (#[trigger] t[m]).skey()
            != t[idx].skey() by {
            assert(t[m] == j[m]);
        }
        lemma_effective_latest(t, from, idx);
        assert(j.last().skey() != j[idx].skey());
    }
}

/// Commit writes the last value: for any key whose latest event is
/// uncommitted, flushing the coalesced writes over any trie contents leaves
/// that key at its last written value, or absent when the last event removed
/// it.
pub proof fn lemma_commit_writes_latest<DB: TrieStorage>(
    j: JournaledTrie<DB>,
    k: Seq<u8>,
    c0: Map<Seq<u8>, (Seq<[u8; 32]>, u32)>,
)
    requires
        j.inv(),
        j.state_map().dom().contains(k),
        j.committed <= j.state_map()[k],
    ensures
        effective(j.journal@, j.committed as int).dom().contains(k),
        effective(j.journal@, j.committed as int)[k] == j.journal@[j.state_map()[k] as int].sval(),
        j.journal@[j.state_map()[k] as int].sval() is Some ==> apply_writes(
            c0,
            effective(j.journal@, j.committed as int),
        ).dom().contains(k) && apply_writes(c0, effective(j.journal@, j.committed as int))[k]
            == write_value(j.journal@[j.state_map()[k] as int].sval()),
        j.journal@[j.state_map()[k] as int].sval() is None ==> !apply_writes(
            c0,
            effective(j.journal@, j.committed as int),
        ).dom().contains(k),
{
    let idx = j.state_map()[k] as int;
    assert(j.journal@[idx].skey() == k);
    lemma_effective_latest(j.journal@, j.committed as int, idx);
}

/// The cold bit marks exactly the first touch: a key already in the overlay
/// reads warm; a key only in the trie reads cold; a key in neither misses.
pub proof fn lemma_cold_exactly_on_first_touch<DB: TrieStorage>(j: JournaledTrie<DB>, k: Seq<u8>)
    requires
        j.inv(),
    ensures
        j.state_map().dom().contains(k) && j.read(k) is Some ==> j.read(k)->Some_0.1 == false,
        !j.state_map().dom().contains(k) && j.storage.contents().dom().contains(k) ==> j.read(k)
            == Some((j.storage.contents()[k].0, true)),
        !j.state_map().dom().contains(k) && !j.storage.contents().dom().contains(k) ==> j.read(k)
            is None,
{
}

} // verus!
