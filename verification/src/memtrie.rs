//! An in-memory trie storage: entries kept sorted by key, so that the
//! representation — and with it the root digest — is a function of the
//! contents alone, whatever order the writes arrived in.

use vstd::prelude::*;

use crate::order::{
    key_cmp, lemma_lex_asymmetric, lemma_lex_irreflexive, lemma_lex_transitive, lex_lt, KeyOrder,
};
use crate::trie::{copy_words, TrieError, TrieStorage};

verus! {

/// One stored entry: a key, its words and its flags.
pub struct TrieEntry {
    pub key: [u8; 32],
    pub value: Vec<[u8; 32]>,
    pub flags: u32,
}

/// Entries strictly ascending by key.
pub open spec fn keys_sorted(s: Seq<TrieEntry>) -> bool {
    forall|i: int, j: int|
        0 <= i < j < s.len() ==> lex_lt(#[trigger] s[i].key@, #[trigger] s[j].key@)
}

/// Whether some entry carries the key.
pub open spec fn has_key(s: Seq<TrieEntry>, k: Seq<u8>) -> bool {
    exists|i: int| 0 <= i < s.len() && (#[trigger] s[i].key@) == k
}

/// The index of the entry carrying the key.
pub open spec fn idx_of(s: Seq<TrieEntry>, k: Seq<u8>) -> int {
    choose|i: int| 0 <= i < s.len() && (#[trigger] s[i].key@) == k
}

/// The contents map of a sequence of entries.
pub open spec fn entry_map(s: Seq<TrieEntry>) -> Map<Seq<u8>, (Seq<[u8; 32]>, u32)> {
    Map::new(
        |k: Seq<u8>| has_key(s, k),
        |k: Seq<u8>| (s[idx_of(s, k)].value@, s[idx_of(s, k)].flags),
    )
}

/// Two byte strings that compare strictly are different.
pub proof fn lemma_lex_ne(a: Seq<u8>, b: Seq<u8>)
    requires
        lex_lt(a, b),
    ensures
        a != b,
{
    if a == b {
        lemma_lex_irreflexive(a);
    }
}

/// In a sorted sequence a key appears at most once.
pub proof fn lemma_sorted_unique(s: Seq<TrieEntry>, i: int, j: int)
    requires
        keys_sorted(s),
        0 <= i < s.len(),
        0 <= j < s.len(),
        s[i].key@ == s[j].key@,
    ensures
        i == j,
{
    if i < j {
        lemma_lex_irreflexive(s[i].key@);
    }
    if j < i {
        lemma_lex_irreflexive(s[i].key@);
    }
}

/// The contents map reads back the entry at any index.
pub proof fn lemma_entry_map_at(s: Seq<TrieEntry>, i: int)
    requires
        keys_sorted(s),
        0 <= i < s.len(),
    ensures
        entry_map(s).dom().contains(s[i].key@),
        entry_map(s)[s[i].key@] == (s[i].value@, s[i].flags),
{
    assert(has_key(s, s[i].key@));
    let j = idx_of(s, s[i].key@);
    assert(0 <= j < s.len() && s[j].key@ == s[i].key@);
    lemma_sorted_unique(s, i, j);
}

/// Inserting an entry between smaller and larger keys keeps the sequence
/// sorted and inserts one binding into the contents map.
pub proof fn lemma_entry_map_insert(s: Seq<TrieEntry>, pos: int, e: TrieEntry)
    requires
        keys_sorted(s),
        0 <= pos <= s.len(),
        forall|m: int| 0 <= m < pos ==> lex_lt(#[trigger] s[m].key@, e.key@),
        forall|m: int| pos <= m < s.len() ==> lex_lt(e.key@, #[trigger] s[m].key@),
    ensures
        keys_sorted(s.insert(pos, e)),
        entry_map(s.insert(pos, e)) == entry_map(s).insert(e.key@, (e.value@, e.flags)),
{
    let s2 = s.insert(pos, e);
    assert forall|i: int, j: int| 0 <= i < j < s2.len() implies lex_lt(
        #[trigger] s2[i].key@,
        #[trigger] s2[j].key@,
    ) by {
        if i < pos && j > pos {
            lemma_lex_transitive(s[i].key@, e.key@, s[j - 1].key@);
        }
    }
    let m2 = entry_map(s).insert(e.key@, (e.value@, e.flags));
    assert forall|k: Seq<u8>| entry_map(s2).dom().contains(k) <==> m2.dom().contains(k) by {
        if k == e.key@ {
            assert(s2[pos].key@ == k);
            assert(has_key(s2, k));
        } else {
            if has_key(s2, k) {
                let i = choose|i: int| 0 <= i < s2.len() && (#[trigger] s2[i].key@) == k;
                if i < pos {
                    assert(s[i].key@ == k);
                } else {
                    assert(i != pos);
                    assert(s[i - 1].key@ == k);
                }
                assert(has_key(s, k));
            }
            if has_key(s, k) {
                let i = choose|i: int| 0 <= i < s.len() && (#[trigger] s[i].key@) == k;
                if i < pos {
                    assert(s2[i].key@ == k);
                } else {
                    assert(s2[i + 1].key@ == k);
                }
                assert(has_key(s2, k));
            }
        }
    }
    assert forall|k: Seq<u8>| entry_map(s2).dom().contains(k) implies entry_map(s2)[k] == m2[k] by {
        if k == e.key@ {
            assert(s2[pos].key@ == k);
            lemma_entry_map_at(s2, pos);
        } else {
            assert(has_key(s, k));
            let i = choose|i: int| 0 <= i < s.len() && (#[trigger] s[i].key@) == k;
            lemma_entry_map_at(s, i);
            if i < pos {
                assert(s2[i] == s[i]);
                lemma_entry_map_at(s2, i);
            } else {
                assert(s2[i + 1] == s[i]);
                lemma_entry_map_at(s2, i + 1);
            }
        }
    }
    assert(entry_map(s2) =~= m2);
}

/// Removing the entry at an index keeps the sequence sorted and removes its
/// binding from the contents map.
pub proof fn lemma_entry_map_remove(s: Seq<TrieEntry>, pos: int)
    requires
        keys_sorted(s),
        0 <= pos < s.len(),
    ensures
        keys_sorted(s.remove(pos)),
        entry_map(s.remove(pos)) == entry_map(s).remove(s[pos].key@),
{
    let s2 = s.remove(pos);
    let k0 = s[pos].key@;
    assert forall|i: int, j: int| 0 <= i < j < s2.len() implies lex_lt(
        #[trigger] s2[i].key@,
        #[trigger] s2[j].key@,
    ) by {
        if i < pos && j >= pos {
            assert(s2[i] == s[i]);
            assert(s2[j] == s[j + 1]);
        }
    }
    let m2 = entry_map(s).remove(k0);
    assert forall|k: Seq<u8>| entry_map(s2).dom().contains(k) <==> m2.dom().contains(k) by {
        if has_key(s2, k) {
            let i = choose|i: int| 0 <= i < s2.len() && (#[trigger] s2[i].key@) == k;
            if i < pos {
                assert(s[i].key@ == k);
                if k == k0 {
                    lemma_sorted_unique(s, i, pos);
                }
            } else {
                assert(s[i + 1].key@ == k);
                if k == k0 {
                    lemma_sorted_unique(s, i + 1, pos);
                }
            }
            assert(has_key(s, k) && k != k0);
        }
        if has_key(s, k) && k != k0 {
            let i = choose|i: int| 0 <= i < s.len() && (#[trigger] s[i].key@) == k;
            assert(i != pos);
            if i < pos {
                assert(s2[i].key@ == k);
            } else {
                assert(s2[i - 1].key@ == k);
            }
            assert(has_key(s2, k));
        }
    }
    assert forall|k: Seq<u8>| entry_map(s2).dom().contains(k) implies entry_map(s2)[k] == m2[k] by {
        assert(has_key(s2, k));
        let i2 = choose|i: int| 0 <= i < s2.len() && (#[trigger] s2[i].key@) == k;
        lemma_entry_map_at(s2, i2);
        if i2 < pos {
            assert(s2[i2] == s[i2]);
            if k == k0 {
                lemma_sorted_unique(s, i2, pos);
            }
            lemma_entry_map_at(s, i2);
        } else {
            assert(s2[i2] == s[i2 + 1]);
            if k == k0 {
                lemma_sorted_unique(s, i2 + 1, pos);
            }
            lemma_entry_map_at(s, i2 + 1);
        }
        assert(k != k0);
        assert(m2[k] == entry_map(s)[k]);
    }
    assert(entry_map(s2) =~= m2);
}

/// The seed of the root digest.
pub const ROOT_SEED: u64 = 0xcbf29ce484222325;

/// One mixing step of the root digest.
pub open spec fn mix(h: u64, b: u8) -> u64 {
    (((h ^ (b as u64)) as u128) * 1099511628211) as u64
}

/// Mixes a byte string, front to back.
pub open spec fn mix_bytes(h: u64, s: Seq<u8>) -> u64
    decreases s.len(),
{
    if s.len() == 0 {
        h
    } else {
        mix_bytes(mix(h, s[0]), s.skip(1))
    }
}

/// Mixes the four little-endian bytes of a 32-bit value.
pub open spec fn mix_u32(h: u64, v: u32) -> u64 {
    mix(mix(mix(mix(h, v as u8), (v >> 8) as u8), (v >> 16) as u8), (v >> 24) as u8)
}

/// Mixes a sequence of 32-byte words, front to back.
pub open spec fn mix_words(h: u64, ws: Seq<[u8; 32]>) -> u64
    decreases ws.len(),
{
    if ws.len() == 0 {
        h
    } else {
        mix_words(mix_bytes(h, ws[0]@), ws.skip(1))
    }
}

/// Mixes one entry: its key, its words, its flags.
pub open spec fn digest_entry(h: u64, e: TrieEntry) -> u64 {
    mix_u32(mix_words(mix_bytes(h, e.key@), e.value@), e.flags)
}

/// Mixes a sequence of entries, front to back.
pub open spec fn digest_entries(h: u64, s: Seq<TrieEntry>) -> u64
    decreases s.len(),
{
    if s.len() == 0 {
        h
    } else {
        digest_entries(digest_entry(h, s[0]), s.skip(1))
    }
}

/// The 32-byte root encoding of a digest: its eight little-endian bytes,
/// zero-extended.
pub open spec fn root_bytes(h: u64) -> Seq<u8> {
    Seq::new(32, |i: int| if i < 8 { (h >> ((8 * i) as u64)) as u8 } else { 0u8 })
}

pub proof fn lemma_mix_bytes_push(h: u64, s: Seq<u8>, b: u8)
    ensures
        mix_bytes(h, s.push(b)) == mix(mix_bytes(h, s), b),
    decreases s.len(),
{
    if s.len() == 0 {
        reveal_with_fuel(mix_bytes, 2);
        assert(s.push(b)[0] == b);
        assert(s.push(b).skip(1) =~= Seq::<u8>::empty());
    } else {
        assert(s.push(b)[0] == s[0]);
        assert(s.push(b).skip(1) =~= s.skip(1).push(b));
        lemma_mix_bytes_push(mix(h, s[0]), s.skip(1), b);
    }
}

pub proof fn lemma_mix_words_push(h: u64, ws: Seq<[u8; 32]>, w: [u8; 32])
    ensures
        mix_words(h, ws.push(w)) == mix_bytes(mix_words(h, ws), w@),
    decreases ws.len(),
{
    if ws.len() == 0 {
        reveal_with_fuel(mix_words, 2);
        assert(ws.push(w)[0] == w);
        assert(ws.push(w).skip(1) =~= Seq::<[u8; 32]>::empty());
    } else {
        assert(ws.push(w)[0] == ws[0]);
        assert(ws.push(w).skip(1) =~= ws.skip(1).push(w));
        lemma_mix_words_push(mix_bytes(h, ws[0]@), ws.skip(1), w);
    }
}

pub proof fn lemma_digest_entries_push(h: u64, s: Seq<TrieEntry>, e: TrieEntry)
    ensures
        digest_entries(h, s.push(e)) == digest_entry(digest_entries(h, s), e),
    decreases s.len(),
{
    if s.len() == 0 {
        reveal_with_fuel(digest_entries, 2);
        assert(s.push(e)[0] == e);
        assert(s.push(e).skip(1) =~= Seq::<TrieEntry>::empty());
    } else {
        assert(s.push(e)[0] == s[0]);
        assert(s.push(e).skip(1) =~= s.skip(1).push(e));
        lemma_digest_entries_push(digest_entry(h, s[0]), s.skip(1), e);
    }
}

/// The digest depends only on the keys, words and flags of the entries, not
/// on the entry values themselves.
pub proof fn lemma_digest_congruent(h: u64, s1: Seq<TrieEntry>, s2: Seq<TrieEntry>)
    requires
        s1.len() == s2.len(),
        forall|i: int|
            0 <= i < s1.len() ==> (#[trigger] s1[i]).key@ == (#[trigger] s2[i]).key@
                && s1[i].value@ == s2[i].value@ && s1[i].flags == s2[i].flags,
    ensures
        digest_entries(h, s1) == digest_entries(h, s2),
    decreases s1.len(),
{
    if s1.len() > 0 {
        assert(digest_entry(h, s1[0]) == digest_entry(h, s2[0]));
        assert(forall|i: int|
            0 <= i < s1.skip(1).len() ==> (#[trigger] s1.skip(1)[i]).key@ == (#[trigger] s2.skip(
                1,
            )[i]).key@ && s1.skip(1)[i].value@ == s2.skip(1)[i].value@ && s1.skip(1)[i].flags
                == s2.skip(1)[i].flags);
        lemma_digest_congruent(digest_entry(h, s1[0]), s1.skip(1), s2.skip(1));
    }
}

/// Two sorted entry sequences with the same contents map hold the same keys,
/// words and flags at every index.
pub proof fn lemma_sorted_canonical(s1: Seq<TrieEntry>, s2: Seq<TrieEntry>)
    requires
        keys_sorted(s1),
        keys_sorted(s2),
        entry_map(s1) == entry_map(s2),
    ensures
        s1.len() == s2.len(),
        forall|i: int|
            0 <= i < s1.len() ==> (#[trigger] s1[i]).key@ == (#[trigger] s2[i]).key@
                && s1[i].value@ == s2[i].value@ && s1[i].flags == s2[i].flags,
    decreases s1.len(),
{
    if s1.len() == 0 {
        if s2.len() > 0 {
            lemma_entry_map_at(s2, 0);
            assert(entry_map(s1).dom().contains(s2[0].key@));
            assert(has_key(s1, s2[0].key@));
            assert(false);
        }
    } else if s2.len() == 0 {
        lemma_entry_map_at(s1, 0);
        assert(has_key(s2, s1[0].key@));
        assert(false);
    } else {
        let n1 = s1.len() - 1;
        let n2 = s2.len() - 1;
        let k1 = s1[n1].key@;
        let k2 = s2[n2].key@;
        lemma_entry_map_at(s1, n1);
        lemma_entry_map_at(s2, n2);
        assert(has_key(s2, k1));
        let j = choose|j: int| 0 <= j < s2.len() && (#[trigger] s2[j].key@) == k1;
        assert(has_key(s1, k2));
        let i = choose|i: int| 0 <= i < s1.len() && (#[trigger] s1[i].key@) == k2;
        if j < n2 && i < n1 {
            assert(lex_lt(k1, k2));
            assert(lex_lt(k2, k1));
            lemma_lex_asymmetric(k1, k2);
            assert(false);
        }
        assert(k1 == k2);
        assert(entry_map(s1)[k1] == (s1[n1].value@, s1[n1].flags));
        assert(entry_map(s2)[k1] == (s2[n2].value@, s2[n2].flags));
        let t1 = s1.drop_last();
        let t2 = s2.drop_last();
        assert(t1 =~= s1.remove(n1));
        assert(t2 =~= s2.remove(n2));
        lemma_entry_map_remove(s1, n1);
        lemma_entry_map_remove(s2, n2);
        assert(entry_map(t1) == entry_map(t2));
        lemma_sorted_canonical(t1, t2);
        assert(forall|m: int| 0 <= m < n1 ==> s1[m] == t1[m] && s2[m] == t2[m]);
    }
}

/// The root is a function of the contents alone: two in-memory tries holding
/// the same contents — however their writes were ordered — report the same
/// root.
pub proof fn lemma_root_determined_by_contents(a: MemoryTrie, b: MemoryTrie)
    requires
        a.wf(),
        b.wf(),
        a.contents() == b.contents(),
    ensures
        a.root_of() == b.root_of(),
{
    lemma_sorted_canonical(a.entries@, b.entries@);
    lemma_digest_congruent(ROOT_SEED, a.entries@, b.entries@);
}

/// An in-memory trie: entries sorted strictly ascending by key.
pub struct MemoryTrie {
    pub entries: Vec<TrieEntry>,
}

impl MemoryTrie {
    /// A view of the stored entries.
    pub open spec fn entries_view(&self) -> Seq<TrieEntry> {
        self.entries@
    }

    /// An empty trie.
    pub fn new() -> (r: MemoryTrie)
        ensures
            r.wf(),
            r.contents() == Map::<Seq<u8>, (Seq<[u8; 32]>, u32)>::empty(),
    {
        let r = MemoryTrie { entries: Vec::new() };
        proof {
            assert(r.contents() =~= Map::<Seq<u8>, (Seq<[u8; 32]>, u32)>::empty());
        }
        r
    }

    /// Finds the position of a key: the index of its entry when present,
    /// otherwise the index where it would be inserted.
    fn find_position(&self, key: &[u8; 32]) -> (r: (usize, bool))
        requires
            self.wf(),
        ensures
            r.0 <= self.entries_view().len(),
            r.1 ==> r.0 < self.entries_view().len() && self.entries_view()[r.0 as int].key@
                == key@,
            forall|m: int|
                0 <= m < r.0 ==> lex_lt((#[trigger] self.entries_view()[m]).key@, key@),
            !r.1 && r.0 < self.entries_view().len() ==> lex_lt(
                key@,
                self.entries_view()[r.0 as int].key@,
            ),
    {
        let mut i: usize = 0;
        while i < self.entries.len()
            invariant
                self.wf(),
                i <= self.entries_view().len(),
                forall|m: int|
                    0 <= m < i ==> lex_lt((#[trigger] self.entries_view()[m]).key@, key@),
            decreases self.entries_view().len() - i,
        {
            match key_cmp(key, &self.entries[i].key) {
                KeyOrder::Equal => {
                    return (i, true);
                },
                KeyOrder::Less => {
                    return (i, false);
                },
                KeyOrder::Greater => {
                    i = i + 1;
                },
            }
        }
        (i, false)
    }

    /// Every key at or past the found position of an absent key is larger.
    proof fn lemma_tail_larger(&self, key: Seq<u8>, pos: int)
        requires
            self.wf(),
            0 <= pos <= self.entries_view().len(),
            pos < self.entries_view().len() ==> lex_lt(key, self.entries_view()[pos].key@),
        ensures
            forall|m: int|
                pos <= m < self.entries_view().len() ==> lex_lt(
                    key,
                    (#[trigger] self.entries_view()[m]).key@,
                ),
    {
        let s = self.entries_view();
        assert forall|m: int| pos <= m < s.len() implies lex_lt(key, (#[trigger] s[m]).key@) by {
            if m > pos {
                lemma_lex_transitive(key, s[pos].key@, s[m].key@);
            }
        }
    }
}

impl TrieStorage for MemoryTrie {
    open spec fn wf(&self) -> bool {
        keys_sorted(self.entries@)
    }

    open spec fn contents(&self) -> Map<Seq<u8>, (Seq<[u8; 32]>, u32)> {
        entry_map(self.entries@)
    }

    open spec fn root_of(&self) -> Seq<u8> {
        root_bytes(digest_entries(ROOT_SEED, self.entries@))
    }

    open spec fn infallible() -> bool {
        true
    }

    fn get(&self, key: &[u8; 32]) -> (r: Option<Vec<[u8; 32]>>) {
        let (pos, found) = self.find_position(key);
        if found {
            proof {
                lemma_entry_map_at(self.entries@, pos as int);
            }
            Some(copy_words(&self.entries[pos].value))
        } else {
            proof {
                self.lemma_tail_larger(key@, pos as int);
                if has_key(self.entries@, key@) {
                    let i = choose|i: int|
                        0 <= i < self.entries@.len() && (#[trigger] self.entries@[i].key@) == key@;
                    if i < pos {
                        lemma_lex_ne(self.entries@[i].key@, key@);
                    } else {
                        lemma_lex_ne(key@, self.entries@[i].key@);
                    }
                }
            }
            None
        }
    }

    fn update(&mut self, key: &[u8; 32], flags: u32, value: &Vec<[u8; 32]>) -> (r: Result<
        (),
        TrieError,
    >) {
        let (pos, found) = self.find_position(key);
        let entry = TrieEntry { key: *key, value: copy_words(value), flags };
        let ghost s0 = self.entries@;
        if found {
            proof {
                lemma_entry_map_remove(s0, pos as int);
                assert forall|m: int|
                    pos <= m < s0.remove(pos as int).len() implies lex_lt(
                    key@,
                    (#[trigger] s0.remove(pos as int)[m]).key@,
                ) by {
                    assert(s0.remove(pos as int)[m] == s0[m + 1]);
                }
            }
            self.entries.remove(pos);
            proof {
                lemma_entry_map_insert(self.entries@, pos as int, entry);
            }
            self.entries.insert(pos, entry);
            proof {
                assert(entry_map(self.entries@) =~= entry_map(s0).insert(
                    key@,
                    (value@, flags),
                ));
            }
        } else {
            proof {
                self.lemma_tail_larger(key@, pos as int);
                lemma_entry_map_insert(s0, pos as int, entry);
            }
            self.entries.insert(pos, entry);
        }
        Ok(())
    }

    fn remove(&mut self, key: &[u8; 32]) -> (r: Result<(), TrieError>) {
        let (pos, found) = self.find_position(key);
        if found {
            proof {
                lemma_entry_map_remove(self.entries@, pos as int);
            }
            self.entries.remove(pos);
        } else {
            proof {
                self.lemma_tail_larger(key@, pos as int);
                if has_key(self.entries@, key@) {
                    let i = choose|i: int|
                        0 <= i < self.entries@.len() && (#[trigger] self.entries@[i].key@) == key@;
                    if i < pos {
                        lemma_lex_ne(self.entries@[i].key@, key@);
                    } else {
                        lemma_lex_ne(key@, self.entries@[i].key@);
                    }
                }
                assert(entry_map(self.entries@).remove(key@) =~= entry_map(self.entries@));
            }
        }
        Ok(())
    }

    fn compute_root(&self) -> (r: [u8; 32]) {
        let mut h: u64 = ROOT_SEED;
        let mut i: usize = 0;
        while i < self.entries.len()
            invariant
                self.wf(),
                i <= self.entries@.len(),
                h == digest_entries(ROOT_SEED, self.entries@.subrange(0, i as int)),
            decreases self.entries@.len() - i,
        {
            let e = &self.entries[i];
            let mut eh: u64 = h;
            let mut j: usize = 0;
            while j < 32
                invariant
                    j <= 32,
                    eh == mix_bytes(h, e.key@.subrange(0, j as int)),
                decreases 32 - j,
            {
                proof {
                    lemma_mix_bytes_push(h, e.key@.subrange(0, j as int), e.key@[j as int]);
                    assert(e.key@.subrange(0, j as int + 1) =~= e.key@.subrange(0, j as int).push(
                        e.key@[j as int],
                    ));
                }
                eh = mix_step(eh, e.key[j]);
                j = j + 1;
            }
            proof {
                assert(e.key@.subrange(0, 32) =~= e.key@);
            }
            let ghost kh = eh;
            let mut w: usize = 0;
            while w < e.value.len()
                invariant
                    w <= e.value@.len(),
                    eh == mix_words(kh, e.value@.subrange(0, w as int)),
                decreases e.value@.len() - w,
            {
                let word = &e.value[w];
                let ghost wh = eh;
                let mut j2: usize = 0;
                while j2 < 32
                    invariant
                        j2 <= 32,
                        eh == mix_bytes(wh, word@.subrange(0, j2 as int)),
                    decreases 32 - j2,
                {
                    proof {
                        lemma_mix_bytes_push(wh, word@.subrange(0, j2 as int), word@[j2 as int]);
                        assert(word@.subrange(0, j2 as int + 1) =~= word@.subrange(
                            0,
                            j2 as int,
                        ).push(word@[j2 as int]));
                    }
                    eh = mix_step(eh, word[j2]);
                    j2 = j2 + 1;
                }
                proof {
                    assert(word@.subrange(0, 32) =~= word@);
                    lemma_mix_words_push(kh, e.value@.subrange(0, w as int), e.value@[w as int]);
                    assert(e.value@.subrange(0, w as int + 1) =~= e.value@.subrange(
                        0,
                        w as int,
                    ).push(e.value@[w as int]));
                }
                w = w + 1;
            }
            proof {
                assert(e.value@.subrange(0, e.value@.len() as int) =~= e.value@);
            }
            let f = e.flags;
            eh = mix_step(eh, #[verifier::truncate] (f as u8));
            eh = mix_step(eh, #[verifier::truncate] ((f >> 8) as u8));
            eh = mix_step(eh, #[verifier::truncate] ((f >> 16) as u8));
            eh = mix_step(eh, #[verifier::truncate] ((f >> 24) as u8));
            proof {
                assert(eh == digest_entry(h, self.entries@[i as int]));
                lemma_digest_entries_push(
                    ROOT_SEED,
                    self.entries@.subrange(0, i as int),
                    self.entries@[i as int],
                );
                assert(self.entries@.subrange(0, i as int + 1) =~= self.entries@.subrange(
                    0,
                    i as int,
                ).push(self.entries@[i as int]));
            }
            h = eh;
            i = i + 1;
        }
        proof {
            assert(self.entries@.subrange(0, self.entries@.len() as int) =~= self.entries@);
        }
        root_bytes_exec(h)
    }
}

/// Encodes a digest as a 32-byte root.
fn root_bytes_exec(h: u64) -> (out: [u8; 32])
    ensures
        out@ == root_bytes(h),
{
    let mut buf: [u8; 32] = [0u8; 32];
    let mut b: usize = 0;
    while b < 32
        invariant
            b <= 32,
            buf@.len() == 32,
            forall|m: int| 0 <= m < b ==> buf@[m] == root_bytes(h)[m],
        decreases 32 - b,
    {
        let byte: u8 = if b < 8 {
            let shift: u64 = 8 * (b as u64);
            #[verifier::truncate] ((h >> shift) as u8)
        } else {
            0u8
        };
        buf[b] = byte;
        b = b + 1;
    }
    proof {
        assert(buf@ =~= root_bytes(h));
    }
    buf
}

/// One exec mixing step.
fn mix_step(h: u64, b: u8) -> (r: u64)
    ensures
        r == mix(h, b),
{
    let x: u64 = h ^ (b as u64);
    proof {
        assert((x as nat) * 1099511628211 < 0x100000000000000000000000000000000) by (nonlinear_arith)
            requires
                x <= 0xffffffffffffffffu64,
            ;
    }
    let wide: u128 = (x as u128) * 1099511628211u128;
    let r: u64 = #[verifier::truncate] (wide as u64);
    proof {
        assert(wide == (x as u128) * 1099511628211);
    }
    r
}

} // verus!
