//! Derivation of trie keys from `(address, slot)` pairs: the slot is
//! compressed into one field element by hashing its two halves, and the final
//! key is the Poseidon hash of the promoted address and the compressed slot,
//! all under domain tag zero.

use vstd::prelude::*;

use crate::poseidon::{fr_modulus, le_bytes_nat, lemma_low_bytes_canonical, poseidon2};

verus! {

/// A byte string of `n` zero bytes.
pub open spec fn zeros(n: nat) -> Seq<u8> {
    Seq::new(n, |i: int| 0u8)
}

/// Bytes 0..16 of a 32-byte value, zero-extended to 32 bytes.
pub open spec fn low_half_buf(v: Seq<u8>) -> Seq<u8> {
    v.subrange(0, 16) + zeros(16)
}

/// Bytes 16..32 of a 32-byte value, zero-extended to 32 bytes.
pub open spec fn high_half_buf(v: Seq<u8>) -> Seq<u8> {
    v.subrange(16, 32) + zeros(16)
}

/// The slot compression: Poseidon over the two zero-extended halves.
pub open spec fn compress_value_spec(v: Seq<u8>) -> Seq<u8> {
    poseidon2(low_half_buf(v), high_half_buf(v))
}

/// A 20-byte address promoted to a 32-byte buffer, zero-extended.
pub open spec fn address_buf(a: Seq<u8>) -> Seq<u8> {
    a + zeros(12)
}

/// The derived storage key: Poseidon over the promoted address and the
/// compressed slot.
pub open spec fn storage_key_spec(a: Seq<u8>, slot: Seq<u8>) -> Seq<u8> {
    poseidon2(address_buf(a), compress_value_spec(slot))
}

/// Copies 16 bytes of `val` starting at `from` into the low half of a fresh
/// 32-byte buffer, the rest zero.
pub(crate) fn padded_half(val: &[u8; 32], from: usize) -> (r: Vec<u8>)
    requires
        from == 0 || from == 16,
    ensures
        r@ == val@.subrange(from as int, from as int + 16) + zeros(16),
        r@.len() == 32,
        le_bytes_nat(r@) < fr_modulus(),
{
    let mut r: Vec<u8> = Vec::new();
    let mut i: usize = 0;
    while i < 16
        invariant
            i <= 16,
            from == 0 || from == 16,
            r@ =~= val@.subrange(from as int, from as int + i as int),
        decreases 16 - i,
    {
        r.push(val[from + i]);
        i = i + 1;
        proof {
            assert(r@ =~= val@.subrange(from as int, from as int + i as int));
        }
    }
    let mut j: usize = 0;
    while j < 16
        invariant
            j <= 16,
            from == 0 || from == 16,
            r@ =~= val@.subrange(from as int, from as int + 16) + zeros(j as nat),
        decreases 16 - j,
    {
        r.push(0u8);
        j = j + 1;
        proof {
            assert(r@ =~= val@.subrange(from as int, from as int + 16) + zeros(j as nat));
        }
    }
    proof {
        assert(forall|m: int| 16 <= m < 32 ==> r@[m] == 0);
        lemma_low_bytes_canonical(r@, 16);
    }
    r
}

/// Copies a 20-byte address into the low bytes of a fresh 32-byte buffer,
/// the rest zero.
pub(crate) fn padded_address(address: &[u8; 20]) -> (r: Vec<u8>)
    ensures
        r@ == address_buf(address@),
        r@.len() == 32,
        le_bytes_nat(r@) < fr_modulus(),
{
    let mut r: Vec<u8> = Vec::new();
    let mut i: usize = 0;
    while i < 20
        invariant
            i <= 20,
            r@ =~= address@.subrange(0, i as int),
        decreases 20 - i,
    {
        r.push(address[i]);
        i = i + 1;
        proof {
            assert(r@ =~= address@.subrange(0, i as int));
        }
    }
    let mut j: usize = 0;
    while j < 12
        invariant
            j <= 12,
            r@ =~= address@ + zeros(j as nat),
        decreases 12 - j,
    {
        r.push(0u8);
        j = j + 1;
        proof {
            assert(r@ =~= address@ + zeros(j as nat));
        }
    }
    proof {
        assert(r@ =~= address_buf(address@));
        assert(forall|m: int| 20 <= m < 32 ==> r@[m] == 0);
        lemma_low_bytes_canonical(r@, 20);
    }
    r
}

} // verus!
