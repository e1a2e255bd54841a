//! The journaled trie overlay: an append-only event log with a live-state
//! index, nested checkpoints with rollback, and an atomic commit that
//! coalesces pending writes per key and flushes them to the underlying trie.

use vstd::prelude::*;

use crate::index::{coalesce_entries, state_entries, write_view, CoalesceMap, StateIndex};
use crate::keys::{
    address_buf, compress_value_spec, high_half_buf, low_half_buf, padded_address, padded_half,
    storage_key_spec,
};
use crate::poseidon::{fr_modulus, hash_pair, le_bytes_nat};
use crate::trie::{copy_words, TrieError, TrieStorage};

verus! {

/// One recorded change: a key got a new value, or was removed. `prev_state`
/// is the journal position of the event this one superseded for the same
/// key, if any.
pub enum JournalEvent {
    ItemChanged { key: [u8; 32], value: Vec<[u8; 32]>, flags: u32, prev_state: Option<usize> },
    ItemRemoved { key: [u8; 32], prev_state: Option<usize> },
}

impl JournalEvent {
    /// The key the event touches.
    pub open spec fn skey(&self) -> Seq<u8> {
        match self {
            JournalEvent::ItemChanged { key, .. } => key@,
            JournalEvent::ItemRemoved { key, .. } => key@,
        }
    }

    /// The value the event leaves behind: words and flags for a change,
    /// nothing for a removal.
    pub open spec fn sval(&self) -> Option<(Seq<[u8; 32]>, u32)> {
        match self {
            JournalEvent::ItemChanged { value, flags, .. } => Some((value@, *flags)),
            JournalEvent::ItemRemoved { .. } => None,
        }
    }

    /// The superseded journal position, if any.
    pub open spec fn sprev(&self) -> Option<usize> {
        match self {
            JournalEvent::ItemChanged { prev_state, .. } => *prev_state,
            JournalEvent::ItemRemoved { prev_state, .. } => *prev_state,
        }
    }

    /// The key the event touches.
    pub fn key(&self) -> (r: &[u8; 32])
        ensures
            r@ == self.skey(),
    {
        match self {
            JournalEvent::ItemChanged { key, .. } => key,
            JournalEvent::ItemRemoved { key, .. } => key,
        }
    }

    /// The value the event leaves behind.
    pub fn value(&self) -> (r: Option<(Vec<[u8; 32]>, u32)>)
        ensures
            write_view(r) == self.sval(),
    {
        match self {
            JournalEvent::ItemChanged { value, flags, .. } => Some((copy_words(value), *flags)),
            JournalEvent::ItemRemoved { .. } => None,
        }
    }

    /// The superseded journal position, if any.
    pub fn prev_state(&self) -> (r: Option<usize>)
        ensures
            r == self.sprev(),
    {
        match self {
            JournalEvent::ItemChanged { prev_state, .. } => *prev_state,
            JournalEvent::ItemRemoved { prev_state, .. } => *prev_state,
        }
    }
}

/// A snapshot marker: the journal length and the log length at capture time.
pub struct JournalCheckpoint(pub u32, pub u32);

impl JournalCheckpoint {
    /// The captured journal length.
    pub fn state(&self) -> (r: usize)
        ensures
            r == self.0 as usize,
    {
        self.0 as usize
    }

    /// The captured log length.
    pub fn logs(&self) -> (r: usize)
        ensures
            r == self.1 as usize,
    {
        self.1 as usize
    }
}

/// One emitted log record.
pub struct JournalLog {
    pub address: [u8; 20],
    pub topics: Vec<[u8; 32]>,
    pub data: Vec<u8>,
}

/// An error the overlay reports itself.
#[derive(Clone, Copy, PartialEq, Eq, Structural, Debug)]
pub enum JournalError {
    /// A storage slot held other than exactly one word.
    NonSingleValue,
}

/// The state index holds exactly the last occurrence of every key present in
/// the journal.
pub open spec fn state_matches(j: Seq<JournalEvent>, s: Map<Seq<u8>, usize>) -> bool {
    &&& forall|i: int| 0 <= i < j.len() ==> s.dom().contains((#[trigger] j[i]).skey())
    &&& forall|k: Seq<u8>|
        s.dom().contains(k) ==> (#[trigger] s[k]) < j.len() && j[s[k] as int].skey() == k
    &&& forall|k: Seq<u8>, m: int|
        #![trigger s[k], j[m]]
        s.dom().contains(k) && s[k] < m < j.len() ==> j[m].skey() != k
}

/// The `prev_state` link of the event at position `i` points to the previous
/// event for the same key, with no other occurrence between, or is absent
/// when the key has no earlier event.
pub open spec fn chain_entry_ok(j: Seq<JournalEvent>, i: int) -> bool {
    match j[i].sprev() {
        Some(p) => p < i && j[p as int].skey() == j[i].skey() && (forall|m: int|
            p < m < i ==> (#[trigger] j[m]).skey() != j[i].skey()),
        None => forall|m: int| 0 <= m < i ==> (#[trigger] j[m]).skey() != j[i].skey(),
    }
}

/// Every event's `prev_state` link is correct.
pub open spec fn chain_ok(j: Seq<JournalEvent>) -> bool {
    forall|i: int| 0 <= i < j.len() ==> #[trigger] chain_entry_ok(j, i)
}

/// The per-key last pending write among the events from position `from` on.
pub open spec fn effective(j: Seq<JournalEvent>, from: int) -> Map<
    Seq<u8>,
    Option<(Seq<[u8; 32]>, u32)>,
>
    decreases j.len(),
{
    if j.len() <= from || j.len() == 0 {
        Map::empty()
    } else {
        effective(j.drop_last(), from).insert(j.last().skey(), j.last().sval())
    }
}

/// The first component of a pending write, for keys it changes.
pub open spec fn write_value(v: Option<(Seq<[u8; 32]>, u32)>) -> (Seq<[u8; 32]>, u32) {
    match v {
        Some(p) => p,
        None => (Seq::empty(), 0u32),
    }
}

/// Contents of the trie after a batch of per-key writes: changed keys take
/// their new value, removed keys leave, untouched keys keep theirs.
pub open spec fn apply_writes(
    c: Map<Seq<u8>, (Seq<[u8; 32]>, u32)>,
    w: Map<Seq<u8>, Option<(Seq<[u8; 32]>, u32)>>,
) -> Map<Seq<u8>, (Seq<[u8; 32]>, u32)> {
    Map::new(
        |k: Seq<u8>|
            if w.dom().contains(k) {
                w[k] is Some
            } else {
                c.dom().contains(k)
            },
        |k: Seq<u8>|
            if w.dom().contains(k) {
                write_value(w[k])
            } else {
                c[k]
            },
    )
}

/// The keys of the first `upto` handed-out coalesced entries.
pub open spec fn processed_keys(
    entries: Seq<([u8; 32], Option<(Vec<[u8; 32]>, u32)>)>,
    upto: int,
) -> Set<Seq<u8>> {
    Set::new(
        |k: Seq<u8>|
            exists|q: int| 0 <= q < upto && q < entries.len() && (#[trigger] entries[q]).0@ == k,
    )
}

/// The view of what a read returns: words and the cold bit.
pub open spec fn read_pair_view(r: Option<(Vec<[u8; 32]>, bool)>) -> Option<(Seq<[u8; 32]>, bool)> {
    match r {
        Some((v, c)) => Some((v@, c)),
        None => None,
    }
}

/// Appending an event whose `prev_state` is the indexed last occurrence of
/// its key keeps the index and the links correct.
proof fn lemma_append_event(j: Seq<JournalEvent>, s: Map<Seq<u8>, usize>, e: JournalEvent)
    requires
        state_matches(j, s),
        chain_ok(j),
        j.len() <= usize::MAX,
        e.sprev() == (if s.dom().contains(e.skey()) {
            Some(s[e.skey()])
        } else {
            None::<usize>
        }),
    ensures
        state_matches(j.push(e), s.insert(e.skey(), j.len() as usize)),
        chain_ok(j.push(e)),
{
    let j1 = j.push(e);
    let s1 = s.insert(e.skey(), j.len() as usize);
    assert forall|i: int| 0 <= i < j1.len() implies s1.dom().contains((#[trigger] j1[i]).skey()) by {
        if i < j.len() {
            assert(j1[i] == j[i]);
        } else {
            assert(j1[i] == e);
        }
    }
    assert forall|k: Seq<u8>| s1.dom().contains(k) implies (#[trigger] s1[k]) < j1.len()
        && j1[s1[k] as int].skey() == k by {
        if k == e.skey() {
            assert(j1[j.len() as int] == e);
        } else {
            assert(s1[k] == s[k]);
            assert(j1[s[k] as int] == j[s[k] as int]);
        }
    }
    assert forall|k: Seq<u8>, m: int|
        #![trigger s1[k], j1[m]]
        s1.dom().contains(k) && s1[k] < m < j1.len() implies j1[m].skey() != k by {
        if k == e.skey() {
        } else {
            if m < j.len() {
                assert(j1[m] == j[m]);
                assert(s[k] < m < j.len());
            } else {
                assert(j1[m] == e);
            }
        }
    }
    assert forall|i: int| 0 <= i < j1.len() implies #[trigger] chain_entry_ok(j1, i) by {
        if i < j.len() {
            assert(chain_entry_ok(j, i));
            assert(j1[i] == j[i]);
            match j[i].sprev() {
                Some(p) => {
                    assert(j1[p as int] == j[p as int]);
                    assert(forall|m: int| p < m < i ==> j1[m] == j[m]);
                },
                None => {
                    assert(forall|m: int| 0 <= m < i ==> j1[m] == j[m]);
                },
            }
        } else {
            assert(j1[i] == e);
            match e.sprev() {
                Some(p) => {
                    assert(p == s[e.skey()]);
                    assert(j1[p as int] == j[p as int]);
                    assert forall|m: int| p < m < i implies (#[trigger] j1[m]).skey() != e.skey() by {
                        assert(j1[m] == j[m]);
                    }
                },
                None => {
                    assert forall|m: int| 0 <= m < i implies (#[trigger] j1[m]).skey()
                        != e.skey() by {
                        assert(j1[m] == j[m]);
                        if j[m].skey() == e.skey() {
                            assert(s.dom().contains(j[m].skey()));
                        }
                    }
                },
            }
        }
    }
}

/// Correct links stay correct on every prefix.
proof fn lemma_chain_prefix(j: Seq<JournalEvent>, n: int)
    requires
        chain_ok(j),
        0 <= n <= j.len(),
    ensures
        chain_ok(j.subrange(0, n)),
{
    let t = j.subrange(0, n);
    assert forall|i: int| 0 <= i < t.len() implies #[trigger] chain_entry_ok(t, i) by {
        assert(chain_entry_ok(j, i));
        assert(t[i] == j[i]);
        match t[i].sprev() {
            Some(p) => {
                assert(t[p as int] == j[p as int]);
                assert forall|m: int| p < m < i implies (#[trigger] t[m]).skey()
                    != t[i].skey() by {
                    assert(t[m] == j[m]);
                }
            },
            None => {
                assert forall|m: int| 0 <= m < i implies (#[trigger] t[m]).skey()
                    != t[i].skey() by {
                    assert(t[m] == j[m]);
                }
            },
        }
    }
}

/// The journaled trie overlay: it owns the underlying store for the duration
/// of a transaction and stages every change until commit or rollback.
pub struct JournaledTrie<DB: TrieStorage> {
    pub storage: DB,
    pub state: StateIndex,
    pub logs: Vec<JournalLog>,
    pub journal: Vec<JournalEvent>,
    pub root: [u8; 32],
    pub committed: usize,
}

impl<DB: TrieStorage> JournaledTrie<DB> {
    /// The live-state index as a map.
    pub open spec fn state_map(&self) -> Map<Seq<u8>, usize> {
        state_entries(self.state)
    }

    /// Well-formedness: the index matches the journal, every `prev_state`
    /// link is correct, the store is sound, and the committed watermark is
    /// within the journal.
    pub open spec fn inv(&self) -> bool {
        &&& self.storage.wf()
        &&& self.state_map().dom().finite()
        &&& state_matches(self.journal@, self.state_map())
        &&& chain_ok(self.journal@)
        &&& self.committed <= self.journal@.len()
    }

    /// What a read of `k` observes: the overlay's latest event when the key
    /// is indexed (warm), else the trie (cold).
    pub open spec fn read(&self, k: Seq<u8>) -> Option<(Seq<[u8; 32]>, bool)> {
        if self.state_map().dom().contains(k) {
            match self.journal@[self.state_map()[k] as int].sval() {
                Some((v, f)) => Some((v, false)),
                None => None,
            }
        } else {
            if self.storage.contents().dom().contains(k) {
                Some((self.storage.contents()[k].0, true))
            } else {
                None
            }
        }
    }

    /// Wraps a store into a fresh, empty overlay and caches its root.
    pub fn new(storage: DB) -> (r: JournaledTrie<DB>)
        requires
            storage.wf(),
        ensures
            r.inv(),
            r.storage == storage,
            r.journal@ == Seq::<JournalEvent>::empty(),
            r.state_map() == Map::<Seq<u8>, usize>::empty(),
            r.logs@ == Seq::<JournalLog>::empty(),
            r.committed == 0,
            r.root@ == storage.root_of(),
    {
        let root = storage.compute_root();
        let r = JournaledTrie {
            storage,
            state: StateIndex::new(),
            logs: Vec::new(),
            journal: Vec::new(),
            root,
            committed: 0,
        };
        r
    }

    /// Compresses a 32-byte value into one canonical field element by
    /// hashing its two zero-extended halves.
    pub fn compress_value(val: &[u8; 32]) -> (r: [u8; 32])
        ensures
            r@ == compress_value_spec(val@),
            le_bytes_nat(r@) < fr_modulus(),
    {
        let lo = padded_half(val, 0);
        let hi = padded_half(val, 16);
        proof {
            assert(lo@ == low_half_buf(val@));
            assert(hi@ == high_half_buf(val@));
        }
        hash_pair(lo.as_slice(), hi.as_slice())
    }

    /// Derives the trie key of `(address, slot)`: Poseidon over the promoted
    /// address and the compressed slot.
    pub fn storage_key(address: &[u8; 20], slot: &[u8; 32]) -> (r: [u8; 32])
        ensures
            r@ == storage_key_spec(address@, slot@),
    {
        let a = padded_address(address);
        let s_star = Self::compress_value(slot);
        proof {
            assert(a@ == address_buf(address@));
        }
        hash_pair(a.as_slice(), vstd::array::array_as_slice(&s_star))
    }

    /// Captures the current journal and log lengths.
    pub fn checkpoint(&mut self) -> (r: JournalCheckpoint)
        requires
            old(self).inv(),
            old(self).journal@.len() <= u32::MAX,
            old(self).logs@.len() <= u32::MAX,
        ensures
            *final(self) == *old(self),
            r.0 == old(self).journal@.len(),
            r.1 == old(self).logs@.len(),
    {
        JournalCheckpoint(self.journal.len() as u32, self.logs.len() as u32)
    }

    /// Reads a key: the overlay's latest event when present (warm), else the
    /// trie (cold).
    pub fn get(&self, key: &[u8; 32]) -> (r: Option<(Vec<[u8; 32]>, bool)>)
        requires
            self.inv(),
        ensures
            read_pair_view(r) == self.read(key@),
    {
        match self.state.get(key) {
            Some(index) => {
                proof {
                    assert(self.state_map()[key@] < self.journal@.len());
                }
                match self.journal[index].value() {
                    Some(pair) => Some((pair.0, false)),
                    None => None,
                }
            },
            None => {
                match self.storage.get(key) {
                    Some(v) => Some((v, true)),
                    None => None,
                }
            },
        }
    }

    /// Appends a change event for the key and points the index at it. Never
    /// touches the trie.
    pub fn update(&mut self, key: &[u8; 32], value: &Vec<[u8; 32]>, flags: u32)
        requires
            old(self).inv(),
            old(self).journal@.len() < usize::MAX,
        ensures
            final(self).inv(),
            final(self).journal@.len() == old(self).journal@.len() + 1,
            forall|i: int|
                0 <= i < old(self).journal@.len() ==> final(self).journal@[i] == old(
                    self,
                ).journal@[i],
            final(self).journal@.last().skey() == key@,
            final(self).journal@.last().sval() == Some((value@, flags)),
            final(self).state_map() == old(self).state_map().insert(
                key@,
                old(self).journal@.len() as usize,
            ),
            final(self).logs@ == old(self).logs@,
            final(self).storage == old(self).storage,
            final(self).root == old(self).root,
            final(self).committed == old(self).committed,
    {
        let pos = self.journal.len();
        let prev = self.state.get(key);
        let e = JournalEvent::ItemChanged {
            key: *key,
            value: copy_words(value),
            flags,
            prev_state: prev,
        };
        proof {
            lemma_append_event(self.journal@, self.state_map(), e);
        }
        self.journal.push(e);
        self.state.insert(key, pos);
    }

    /// Appends a removal event for the key and points the index at it. Never
    /// touches the trie.
    pub fn remove(&mut self, key: &[u8; 32])
        requires
            old(self).inv(),
            old(self).journal@.len() < usize::MAX,
        ensures
            final(self).inv(),
            final(self).journal@.len() == old(self).journal@.len() + 1,
            forall|i: int|
                0 <= i < old(self).journal@.len() ==> final(self).journal@[i] == old(
                    self,
                ).journal@[i],
            final(self).journal@.last().skey() == key@,
            final(self).journal@.last().sval() == None::<(Seq<[u8; 32]>, u32)>,
            final(self).state_map() == old(self).state_map().insert(
                key@,
                old(self).journal@.len() as usize,
            ),
            final(self).logs@ == old(self).logs@,
            final(self).storage == old(self).storage,
            final(self).root == old(self).root,
            final(self).committed == old(self).committed,
    {
        let pos = self.journal.len();
        let prev = self.state.get(key);
        let e = JournalEvent::ItemRemoved { key: *key, prev_state: prev };
        proof {
            lemma_append_event(self.journal@, self.state_map(), e);
        }
        self.journal.push(e);
        self.state.insert(key, pos);
    }

    /// Writes one word under the derived storage key, with flags 1.
    pub fn store(&mut self, address: &[u8; 20], slot: &[u8; 32], value: &[u8; 32])
        requires
            old(self).inv(),
            old(self).journal@.len() < usize::MAX,
        ensures
            final(self).inv(),
            final(self).journal@.len() == old(self).journal@.len() + 1,
            forall|i: int|
                0 <= i < old(self).journal@.len() ==> final(self).journal@[i] == old(
                    self,
                ).journal@[i],
            final(self).journal@.last().skey() == storage_key_spec(address@, slot@),
            final(self).journal@.last().sval() == Some((seq![*value], 1u32)),
            final(self).state_map() == old(self).state_map().insert(
                storage_key_spec(address@, slot@),
                old(self).journal@.len() as usize,
            ),
            final(self).logs@ == old(self).logs@,
            final(self).storage == old(self).storage,
            final(self).root == old(self).root,
            final(self).committed == old(self).committed,
    {
        let storage_key = Self::storage_key(address, slot);
        let v: Vec<[u8; 32]> = vec![*value];
        proof {
            assert(v@ =~= seq![*value]);
        }
        self.update(&storage_key, &v, 1);
    }

    /// Reads the word under the derived storage key, with the cold bit. The
    /// caller must know the slot holds exactly one word; `try_load` checks
    /// instead.
    pub fn load(&self, address: &[u8; 20], slot: &[u8; 32]) -> (r: Option<([u8; 32], bool)>)
        requires
            self.inv(),
            match self.read(storage_key_spec(address@, slot@)) {
                Some((v, c)) => v.len() == 1,
                None => true,
            },
        ensures
            match (r, self.read(storage_key_spec(address@, slot@))) {
                (Some((w, c1)), Some((v, c2))) => w == v[0] && c1 == c2,
                (None, None) => true,
                _ => false,
            },
    {
        let key = Self::storage_key(address, slot);
        match self.get(&key) {
            Some((values, is_cold)) => Some((values[0], is_cold)),
            None => None,
        }
    }

    /// Derives the key, reads it, and loads only when the slot holds exactly
    /// one word; a malformed width is reported, not assumed away.
    pub fn try_load(&self, address: &[u8; 20], slot: &[u8; 32]) -> (r: Result<
        Option<([u8; 32], bool)>,
        JournalError,
    >)
        requires
            self.inv(),
        ensures
            match self.read(storage_key_spec(address@, slot@)) {
                Some((v, c)) => if v.len() == 1 {
                    r is Ok && r->Ok_0 is Some && r->Ok_0->Some_0.0 == v[0] && r->Ok_0->Some_0.1
                        == c
                } else {
                    r == Err::<Option<([u8; 32], bool)>, JournalError>(JournalError::NonSingleValue)
                },
                None => r == Ok::<Option<([u8; 32], bool)>, JournalError>(
                    None::<([u8; 32], bool)>,
                ),
            },
    {
        let key = Self::storage_key(address, slot);
        match self.get(&key) {
            Some((values, _)) => {
                if values.len() == 1 {
                    Ok(self.load(address, slot))
                } else {
                    Err(JournalError::NonSingleValue)
                }
            },
            None => Ok(None),
        }
    }

    /// The trie root for the store's current contents.
    pub fn compute_root(&self) -> (r: [u8; 32])
        requires
            self.inv(),
        ensures
            r@ == self.storage.root_of(),
    {
        self.storage.compute_root()
    }

    /// Appends a log record. Logs are truncated by rollback and drained by
    /// commit.
    pub fn emit_log(&mut self, address: [u8; 20], topics: Vec<[u8; 32]>, data: Vec<u8>)
        requires
            old(self).inv(),
        ensures
            final(self).inv(),
            final(self).logs@ == old(self).logs@.push(
                (JournalLog { address, topics, data }),
            ),
            final(self).journal@ == old(self).journal@,
            final(self).state_map() == old(self).state_map(),
            final(self).storage == old(self).storage,
            final(self).root == old(self).root,
            final(self).committed == old(self).committed,
    {
        self.logs.push(JournalLog { address, topics, data });
    }

    /// Reverses the overlay to a checkpoint: walks the journal backwards
    /// restoring each key's index to its superseded position, then truncates
    /// the journal and the logs. Rolling back past the committed watermark
    /// is not allowed.
    pub fn rollback(&mut self, checkpoint: JournalCheckpoint)
        requires
            old(self).inv(),
            old(self).committed <= checkpoint.0 as usize,
            checkpoint.0 as usize <= old(self).journal@.len(),
            checkpoint.1 as usize <= old(self).logs@.len(),
        ensures
            final(self).inv(),
            final(self).journal@ == old(self).journal@.subrange(0, checkpoint.0 as int),
            final(self).logs@ == old(self).logs@.subrange(0, checkpoint.1 as int),
            final(self).storage == old(self).storage,
            final(self).root == old(self).root,
            final(self).committed == old(self).committed,
    {
        let target = checkpoint.state();
        let mut idx = self.journal.len();
        while idx > target
            invariant
                target == checkpoint.0 as usize,
                target <= idx <= self.journal@.len(),
                self.journal@ == old(self).journal@,
                self.logs@ == old(self).logs@,
                self.storage == old(self).storage,
                self.root == old(self).root,
                self.committed == old(self).committed,
                self.storage.wf(),
                self.state_map().dom().finite(),
                state_matches(self.journal@.subrange(0, idx as int), self.state_map()),
                chain_ok(self.journal@),
            decreases idx,
        {
            idx = idx - 1;
            let ghost jfull = self.journal@;
            let ghost prefix = jfull.subrange(0, idx as int + 1);
            let ghost s0 = self.state_map();
            proof {
                assert(chain_entry_ok(jfull, idx as int));
                assert(prefix[idx as int] == jfull[idx as int]);
                assert(s0.dom().contains(prefix[idx as int].skey()));
                let k = prefix[idx as int].skey();
                if s0[k] < idx {
                    assert(prefix[s0[k] as int].skey() == k);
                    assert(false);
                }
                assert(s0[k] == idx);
            }
            let prev = self.journal[idx].prev_state();
            let key_copy: [u8; 32] = *self.journal[idx].key();
            let ghost k = jfull[idx as int].skey();
            match prev {
                Some(p) => {
                    self.state.insert(&key_copy, p);
                    proof {
                        let s1 = self.state_map();
                        let t = jfull.subrange(0, idx as int);
                        assert(s1 == s0.insert(k, p));
                        assert(p < idx && jfull[p as int].skey() == k);
                        assert(t[p as int] == jfull[p as int]);
                        assert forall|i: int| 0 <= i < t.len() implies s1.dom().contains(
                            (#[trigger] t[i]).skey(),
                        ) by {
                            assert(prefix[i] == t[i]);
                        }
                        assert forall|k2: Seq<u8>| s1.dom().contains(k2) implies (
                        #[trigger] s1[k2]) < t.len() && t[s1[k2] as int].skey() == k2 by {
                            if k2 == k {
                                assert(t[p as int] == jfull[p as int]);
                            } else {
                                assert(s1[k2] == s0[k2]);
                                assert(prefix[s0[k2] as int].skey() == k2);
                                if s0[k2] == idx {
                                    assert(prefix[idx as int].skey() == k);
                                    assert(false);
                                }
                                assert(t[s0[k2] as int] == prefix[s0[k2] as int]);
                            }
                        }
                        assert forall|k2: Seq<u8>, m: int|
                            #![trigger s1[k2], t[m]]
                            s1.dom().contains(k2) && s1[k2] < m < t.len() implies t[m].skey()
                            != k2 by {
                            assert(t[m] == prefix[m]);
                            if k2 == k {
                                assert(forall|m2: int|
                                    p < m2 < idx ==> (#[trigger] jfull[m2]).skey() != k);
                                assert(jfull[m] == t[m]);
                            } else {
                                assert(s1[k2] == s0[k2]);
                                assert(s0[k2] < m < prefix.len());
                            }
                        }
                        assert(state_matches(t, s1));
                    }
                },
                None => {
                    self.state.remove(&key_copy);
                    proof {
                        let s1 = self.state_map();
                        let t = jfull.subrange(0, idx as int);
                        assert(s1 == s0.remove(k));
                        assert(forall|m: int| 0 <= m < idx ==> (#[trigger] jfull[m]).skey() != k);
                        assert forall|i: int| 0 <= i < t.len() implies s1.dom().contains(
                            (#[trigger] t[i]).skey(),
                        ) by {
                            assert(t[i] == prefix[i]);
                            assert(t[i] == jfull[i]);
                            assert(s0.dom().contains(t[i].skey()));
                            assert(t[i].skey() != k);
                        }
                        assert forall|k2: Seq<u8>| s1.dom().contains(k2) implies (
                        #[trigger] s1[k2]) < t.len() && t[s1[k2] as int].skey() == k2 by {
                            assert(s1[k2] == s0[k2]);
                            assert(prefix[s0[k2] as int].skey() == k2);
                            if s0[k2] == idx {
                                assert(prefix[idx as int].skey() == k);
                                assert(false);
                            }
                            assert(t[s0[k2] as int] == prefix[s0[k2] as int]);
                        }
                        assert forall|k2: Seq<u8>, m: int|
                            #![trigger s1[k2], t[m]]
                            s1.dom().contains(k2) && s1[k2] < m < t.len() implies t[m].skey()
                            != k2 by {
                            assert(t[m] == prefix[m]);
                            assert(s1[k2] == s0[k2]);
                            assert(s0[k2] < m < prefix.len());
                        }
                        assert(state_matches(t, s1));
                    }
                },
            }
        }
        proof {
            lemma_chain_prefix(self.journal@, target as int);
        }
        self.journal.truncate(target);
        self.logs.truncate(checkpoint.logs());
    }

    /// Flushes the overlay: coalesces the uncommitted events per key
    /// (last write wins), writes the survivors through to the trie, clears
    /// the journal, the index and the logs, resets the watermark, and
    /// returns the fresh root with the drained logs. A trie error aborts the
    /// flush and leaves the overlay itself unchanged.
    pub fn commit(&mut self) -> (r: Result<([u8; 32], Vec<JournalLog>), TrieError>)
        requires
            old(self).inv(),
            old(self).committed < old(self).journal@.len(),
        ensures
            final(self).inv(),
            DB::infallible() ==> r is Ok,
            match r {
                Ok(out) => {
                    &&& final(self).storage.contents() == apply_writes(
                        old(self).storage.contents(),
                        effective(old(self).journal@, old(self).committed as int),
                    )
                    &&& final(self).journal@ == Seq::<JournalEvent>::empty()
                    &&& final(self).state_map() == Map::<Seq<u8>, usize>::empty()
                    &&& final(self).logs@ == Seq::<JournalLog>::empty()
                    &&& final(self).committed == 0
                    &&& out.0@ == final(self).storage.root_of()
                    &&& final(self).root == out.0
                    &&& out.1@ == old(self).logs@
                },
                Err(_) => {
                    &&& final(self).journal@ == old(self).journal@
                    &&& final(self).state_map() == old(self).state_map()
                    &&& final(self).logs@ == old(self).logs@
                    &&& final(self).committed == old(self).committed
                    &&& final(self).root == old(self).root
                },
            },
    {
        let ghost c = self.committed as int;
        let ghost j0 = self.journal@;
        let mut coalesce = CoalesceMap::new();
        let mut i = self.committed;
        proof {
            assert(j0.subrange(0, c) =~= j0.subrange(0, c));
            assert(coalesce_entries(coalesce) =~= effective(j0.subrange(0, c), c));
        }
        while i < self.journal.len()
            invariant
                *self == *old(self),
                self.inv(),
                c == self.committed as int,
                j0 == self.journal@,
                self.committed <= i <= self.journal@.len(),
                coalesce_entries(coalesce) == effective(j0.subrange(0, i as int), c),
            decreases self.journal@.len() - i,
        {
            let key_copy: [u8; 32] = *self.journal[i].key();
            let val = self.journal[i].value();
            coalesce.insert(&key_copy, val);
            proof {
                assert(j0.subrange(0, i as int + 1).drop_last() =~= j0.subrange(0, i as int));
                assert(j0.subrange(0, i as int + 1).last() == j0[i as int]);
                assert(effective(j0.subrange(0, i as int + 1), c) == effective(
                    j0.subrange(0, i as int),
                    c,
                ).insert(j0[i as int].skey(), j0[i as int].sval()));
            }
            i = i + 1;
        }
        proof {
            assert(j0.subrange(0, j0.len() as int) =~= j0);
        }
        let ghost eff = effective(j0, c);
        let entries = coalesce.into_entries();
        let mut n: usize = 0;
        proof {
            assert(eff.restrict(processed_keys(entries@, 0)) =~= Map::<
                Seq<u8>,
                Option<(Seq<[u8; 32]>, u32)>,
            >::empty());
            assert(apply_writes(old(self).storage.contents(), eff.restrict(processed_keys(entries@, 0)))
                =~= old(self).storage.contents());
        }
        while n < entries.len()
            invariant
                self.journal@ == old(self).journal@,
                self.state_map() == old(self).state_map(),
                self.logs@ == old(self).logs@,
                self.committed == old(self).committed,
                self.root == old(self).root,
                self.storage.wf(),
                old(self).inv(),
                self.state_map().dom().finite(),
                state_matches(self.journal@, self.state_map()),
                chain_ok(self.journal@),
                self.committed <= self.journal@.len(),
                n <= entries@.len(),
                forall|q: int|
                    0 <= q < entries@.len() ==> eff.dom().contains((#[trigger] entries@[q]).0@)
                        && eff[entries@[q].0@] == write_view(entries@[q].1),
                self.storage.contents() == apply_writes(
                    old(self).storage.contents(),
                    eff.restrict(processed_keys(entries@, n as int)),
                ),
            decreases entries@.len() - n,
        {
            let ghost pk0 = processed_keys(entries@, n as int);
            let ghost pk1 = processed_keys(entries@, n as int + 1);
            let ghost kk = entries@[n as int].0@;
            proof {
                assert forall|k2: Seq<u8>| pk1.contains(k2) implies pk0.insert(kk).contains(
                    k2,
                ) by {
                    let q = choose|q: int|
                        0 <= q < n as int + 1 && q < entries@.len() && (#[trigger] entries@[q]).0@
                            == k2;
                    if q < n as int {
                        assert(pk0.contains(k2));
                    }
                }
                assert forall|k2: Seq<u8>| pk0.insert(kk).contains(k2) implies pk1.contains(
                    k2,
                ) by {
                    if k2 == kk {
                        assert(entries@[n as int].0@ == k2);
                    } else {
                        assert(pk0.contains(k2));
                    }
                }
                assert(pk1 =~= pk0.insert(kk));
                assert(eff.dom().contains(kk));
                assert(eff.restrict(pk1) =~= eff.restrict(pk0).insert(kk, eff[kk]));
            }
            let key_copy: [u8; 32] = entries[n].0;
            let ghost c0 = old(self).storage.contents();
            let ghost w0 = eff.restrict(pk0);
            match &entries[n].1 {
                Some(pair) => {
                    let res = self.storage.update(&key_copy, pair.1, &pair.0);
                    match res {
                        Ok(()) => {
                            proof {
                                assert(eff[kk] == Some((pair.0@, pair.1)));
                                assert(self.storage.contents() =~= apply_writes(
                                    c0,
                                    eff.restrict(pk1),
                                ));
                            }
                        },
                        Err(err) => {
                            return Err(err);
                        },
                    }
                },
                None => {
                    let res = self.storage.remove(&key_copy);
                    match res {
                        Ok(()) => {
                            proof {
                                assert(eff[kk] == None::<(Seq<[u8; 32]>, u32)>);
                                assert(self.storage.contents() =~= apply_writes(
                                    c0,
                                    eff.restrict(pk1),
                                ));
                            }
                        },
                        Err(err) => {
                            return Err(err);
                        },
                    }
                },
            }
            n = n + 1;
        }
        proof {
            let pk = processed_keys(entries@, entries@.len() as int);
            assert forall|k2: Seq<u8>| eff.dom().contains(k2) implies pk.contains(k2) by {
            }
            assert(eff.restrict(pk) =~= eff);
        }
        self.journal.clear();
        self.state.clear();
        let logs = self.logs.split_off(0);
        self.committed = 0;
        let root = self.storage.compute_root();
        self.root = root;
        proof {
            assert(old(self).logs@.subrange(0, old(self).logs@.len() as int) =~= old(self).logs@);
            assert(self.logs@ =~= Seq::<JournalLog>::empty());
            assert(state_matches(self.journal@, self.state_map()));
            assert(chain_ok(self.journal@));
        }
        Ok((root, logs))
    }
}

} // verus!
