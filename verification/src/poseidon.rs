//! The Poseidon two-to-one hash over the BN254 scalar field, behind a
//! trusted wrapper, together with the little-endian byte arithmetic needed to
//! state when a 32-byte buffer is a canonical field element.

use vstd::prelude::*;

verus! {

/// The order of the BN254 scalar field. A 32-byte little-endian buffer is a
/// canonical field element exactly when its value is below this number.
pub open spec fn fr_modulus() -> nat {
    21888242871839275222246405745257275088548364400416034343698204186575808495617nat
}

/// The value of a byte string read as a little-endian integer.
pub open spec fn le_bytes_nat(s: Seq<u8>) -> nat
    decreases s.len(),
{
    if s.len() == 0 {
        0
    } else {
        (s[0] as nat) + 256 * le_bytes_nat(s.skip(1))
    }
}

/// 256 raised to the power `n`.
pub open spec fn pow256(n: nat) -> nat
    decreases n,
{
    if n == 0 {
        1
    } else {
        256 * pow256((n - 1) as nat)
    }
}

/// A byte string of length `n` is worth less than `256^n`.
pub proof fn lemma_le_bytes_upper(s: Seq<u8>)
    ensures
        le_bytes_nat(s) < pow256(s.len()),
    decreases s.len(),
{
    if s.len() > 0 {
        lemma_le_bytes_upper(s.skip(1));
    }
}

/// Bytes beyond position `k` that are all zero do not contribute to the
/// little-endian value.
pub proof fn lemma_le_bytes_zero_tail(s: Seq<u8>, k: int)
    requires
        0 <= k <= s.len(),
        forall|m: int| k <= m < s.len() ==> s[m] == 0,
    ensures
        le_bytes_nat(s) == le_bytes_nat(s.subrange(0, k)),
    decreases s.len(),
{
    if s.len() == 0 {
    } else if k == 0 {
        assert(s[0] == 0);
        lemma_le_bytes_zero_tail(s.skip(1), 0);
        assert(s.skip(1).subrange(0, 0) =~= s.subrange(0, 0));
    } else {
        lemma_le_bytes_zero_tail(s.skip(1), k - 1);
        assert(s.skip(1).subrange(0, k - 1) =~= s.subrange(0, k).skip(1));
        assert(s.subrange(0, k)[0] == s[0]);
    }
}

/// A 32-byte buffer whose bytes from position `k < 21` on are zero is a
/// canonical BN254 scalar.
pub proof fn lemma_low_bytes_canonical(s: Seq<u8>, k: int)
    requires
        s.len() == 32,
        0 <= k <= 20,
        forall|m: int| k <= m < 32 ==> s[m] == 0,
    ensures
        le_bytes_nat(s) < fr_modulus(),
{
    lemma_le_bytes_zero_tail(s, k);
    lemma_le_bytes_upper(s.subrange(0, k));
    lemma_pow256_monotone(k as nat, 20);
    reveal_with_fuel(pow256, 21);
    assert(pow256(20) == 0x10000000000000000000000000000000000000000nat);
}

pub proof fn lemma_pow256_monotone(m: nat, n: nat)
    requires
        m <= n,
    ensures
        pow256(m) <= pow256(n),
    decreases n,
{
    if m < n {
        lemma_pow256_monotone(m, (n - 1) as nat);
    }
}

/// What Poseidon, with domain tag zero, returns on a pair of canonical
/// 32-byte field elements.
pub uninterp spec fn poseidon2(a: Seq<u8>, b: Seq<u8>) -> Seq<u8>;

/// Relies on `light_poseidon::Poseidon::hash_bytes_le` over `ark_bn254::Fr`:
/// a two-to-one Poseidon hash with domain tag zero whose result is the
/// canonical 32-byte little-endian encoding of a BN254 scalar, a function of
/// the two input buffers alone. The call fails only when an input is not
/// exactly 32 bytes or encodes a value at or above the field modulus; the
/// `requires` rules both out.
#[verifier::external_body]
pub(crate) fn hash_pair(a: &[u8], b: &[u8]) -> (r: [u8; 32])
    requires
        a@.len() == 32,
        b@.len() == 32,
        le_bytes_nat(a@) < fr_modulus(),
        le_bytes_nat(b@) < fr_modulus(),
    ensures
        r@ == poseidon2(a@, b@),
        le_bytes_nat(r@) < fr_modulus(),
{
    let mut hasher = light_poseidon::Poseidon::<ark_bn254::Fr>::new_circom(2).unwrap();
    light_poseidon::PoseidonBytesHasher::hash_bytes_le(&mut hasher, &[a, b]).unwrap()
}

} // verus!
