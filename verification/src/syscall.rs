//! The Poseidon system-call surface: hashing an arbitrary byte string by
//! absorbing 16-byte chunks, each zero-extended to a canonical field element,
//! into a running Poseidon state.

use vstd::prelude::*;

use crate::keys::zeros;
use crate::poseidon::{
    fr_modulus, hash_pair, le_bytes_nat, lemma_low_bytes_canonical, poseidon2,
};

verus! {

/// How many 16-byte chunks a byte string of length `n` splits into.
pub open spec fn num_chunks(n: nat) -> nat {
    (n + 15) / 16
}

/// Chunk `i` of a byte string: bytes `16 i` up to `16 (i + 1)` or the end,
/// zero-extended to 32 bytes.
pub open spec fn chunk_buf(data: Seq<u8>, i: int) -> Seq<u8> {
    if 16 * i + 16 <= data.len() {
        data.subrange(16 * i, 16 * i + 16) + zeros(16)
    } else {
        data.subrange(16 * i, data.len() as int) + zeros((32 - (data.len() - 16 * i)) as nat)
    }
}

/// The sponge state after absorbing the first `n` chunks, starting from the
/// all-zero state.
pub open spec fn sponge_at(data: Seq<u8>, n: int) -> Seq<u8>
    decreases n,
{
    if n <= 0 {
        zeros(32)
    } else {
        poseidon2(sponge_at(data, n - 1), chunk_buf(data, n - 1))
    }
}

/// The digest of a byte string: the sponge state after absorbing every chunk.
pub open spec fn sponge_spec(data: Seq<u8>) -> Seq<u8> {
    sponge_at(data, num_chunks(data.len()) as int)
}

/// The Poseidon system call.
pub struct SyscallPoseidon;

impl SyscallPoseidon {
    /// Hashes an arbitrary byte string with the chunked Poseidon sponge.
    pub fn fn_impl(data: &[u8]) -> (r: [u8; 32])
        ensures
            r@ == sponge_spec(data@),
    {
        let len = data.len();
        let n: usize = len / 16 + if len % 16 != 0 {
            1
        } else {
            0
        };
        proof {
            assert(n == num_chunks(data@.len()));
        }
        let mut acc: [u8; 32] = [0u8; 32];
        proof {
            assert(acc@ =~= zeros(32));
            assert(forall|m: int| 0 <= m < 32 ==> acc@[m] == 0);
            lemma_low_bytes_canonical(acc@, 0);
        }
        let mut c: usize = 0;
        while c < n
        invariant
                c <= n,
                n == num_chunks(data@.len()),
                len == data@.len(),
                acc@ == sponge_at(data@, c as int),
                le_bytes_nat(acc@) < fr_modulus(),
            decreases n - c,
        {
            let start = c * 16;
            proof {
                assert(start < len) by (nonlinear_arith)
                    requires
                        c < n,
                        n == (len + 15) / 16,
                        start == c * 16,
                    ;
            }
            let end = if len - start >= 16 {
                start + 16
            } else {
                len
            };
            let mut chunk: Vec<u8> = Vec::new();
            let mut i: usize = start;
            while i < end
                invariant
                    start <= i <= end <= len,
                    len == data@.len(),
                    chunk@ =~= data@.subrange(start as int, i as int),
                decreases end - i,
            {
                chunk.push(data[i]);
                i = i + 1;
                proof {
                    assert(chunk@ =~= data@.subrange(start as int, i as int));
                }
            }
            let mut j: usize = end - start;
            while j < 32
                invariant
                    end - start <= j <= 32,
                    start <= end <= len,
                    len == data@.len(),
                    chunk@ =~= data@.subrange(start as int, end as int) + zeros(
                        (j - (end - start)) as nat,
                    ),
                decreases 32 - j,
            {
                chunk.push(0u8);
                j = j + 1;
                proof {
                    assert(chunk@ =~= data@.subrange(start as int, end as int) + zeros(
                        (j - (end - start)) as nat,
                    ));
                }
            }
            proof {
                assert(chunk@.len() == 32);
                assert(forall|m: int| end - start <= m < 32 ==> chunk@[m] == 0);
                lemma_low_bytes_canonical(chunk@, end - start);
                assert(chunk@ =~= chunk_buf(data@, c as int)) by {
                    assert(start == 16 * c) by (nonlinear_arith)
                        requires
                            start == c * 16,
                        ;
                    if 16 * c + 16 <= data@.len() {
                        assert(end == 16 * c + 16);
                    } else {
                        assert(end == data@.len());
                    }
                };
            }
            let next = hash_pair(vstd::array::array_as_slice(&acc), chunk.as_slice());
            acc = next;
            c = c + 1;
            proof {
                assert(acc@ == sponge_at(data@, c as int));
            }
        }
        acc
    }
}

} // verus!
