//! Lexicographic order on byte strings, used to keep trie entries in a
//! canonical order.

use vstd::prelude::*;

verus! {

/// Strict lexicographic order: `a` comes before `b` when at the first
/// position where they differ the byte of `a` is smaller, or `a` is a proper
/// prefix of `b`.
pub open spec fn lex_lt(a: Seq<u8>, b: Seq<u8>) -> bool
    decreases a.len(),
{
    if b.len() == 0 {
        false
    } else if a.len() == 0 {
        true
    } else if a[0] < b[0] {
        true
    } else if a[0] > b[0] {
        false
    } else {
        lex_lt(a.skip(1), b.skip(1))
    }
}

pub proof fn lemma_lex_irreflexive(a: Seq<u8>)
    ensures
        !lex_lt(a, a),
    decreases a.len(),
{
    if a.len() > 0 {
        lemma_lex_irreflexive(a.skip(1));
    }
}

pub proof fn lemma_lex_asymmetric(a: Seq<u8>, b: Seq<u8>)
    requires
        lex_lt(a, b),
    ensures
        !lex_lt(b, a),
    decreases a.len(),
{
    if b.len() == 0 {
    } else if a.len() == 0 {
    } else if a[0] < b[0] {
    } else if a[0] > b[0] {
    } else {
        lemma_lex_asymmetric(a.skip(1), b.skip(1));
    }
}

pub proof fn lemma_lex_transitive(a: Seq<u8>, b: Seq<u8>, c: Seq<u8>)
    requires
        lex_lt(a, b),
        lex_lt(b, c),
    ensures
        lex_lt(a, c),
    decreases a.len(),
{
    if a.len() == 0 {
    } else if a[0] < b[0] {
        assert(b[0] <= c[0]);
    } else {
        if b[0] == c[0] {
            lemma_lex_transitive(a.skip(1), b.skip(1), c.skip(1));
        }
    }
}

/// If `a` and `b` agree up to position `i` and differ there in `a`'s favour,
/// then `a` is lexicographically smaller.
pub proof fn lemma_lex_from_diff(a: Seq<u8>, b: Seq<u8>, i: int)
    requires
        0 <= i < a.len(),
        i < b.len(),
        forall|m: int| 0 <= m < i ==> a[m] == b[m],
        a[i] < b[i],
    ensures
        lex_lt(a, b),
    decreases i,
{
    if i > 0 {
        assert(forall|m: int| 0 <= m < i - 1 ==> a.skip(1)[m] == b.skip(1)[m]);
        assert(a.skip(1)[i - 1] < b.skip(1)[i - 1]);
        lemma_lex_from_diff(a.skip(1), b.skip(1), i - 1);
    }
}

/// Three-way comparison result for 32-byte keys.
pub enum KeyOrder {
    Less,
    Equal,
    Greater,
}

/// Compares two 32-byte keys lexicographically.
pub fn key_cmp(a: &[u8; 32], b: &[u8; 32]) -> (r: KeyOrder)
    ensures
        r is Less <==> lex_lt(a@, b@),
        r is Greater <==> lex_lt(b@, a@),
        r is Equal <==> a@ == b@,
{
    let mut i: usize = 0;
    while i < 32
        invariant
            0 <= i <= 32,
            a@.len() == 32,
            b@.len() == 32,
            forall|m: int| 0 <= m < i ==> a@[m] == b@[m],
        decreases 32 - i,
    {
        let x = a[i];
        let y = b[i];
        if x < y {
            proof {
                lemma_lex_from_diff(a@, b@, i as int);
                lemma_lex_asymmetric(a@, b@);
                assert(a@[i as int] != b@[i as int]);
            }
            return KeyOrder::Less;
        }
        if x > y {
            proof {
                lemma_lex_from_diff(b@, a@, i as int);
                lemma_lex_asymmetric(b@, a@);
                assert(a@[i as int] != b@[i as int]);
            }
            return KeyOrder::Greater;
        }
        i = i + 1;
    }
    proof {
        assert(a@ =~= b@);
        lemma_lex_irreflexive(a@);
    }
    KeyOrder::Equal
}

} // verus!
