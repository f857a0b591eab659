//! Decode path for the plaintext-ordinal pipeline, from raw bytes.
//!
//! The forward schedule came from the plaintext's own bytes, which a
//! decoder does not have; as a stand-in, this path rebuilds the schedule
//! from the supplied key bytes.  That reconstruction is a documented
//! short-cut, not the true inverse of the forward schedule: it matches
//! only when the key bytes are the schedule source, so the recovered text
//! is what those rotations yield, as the contract states.

use vstd::prelude::*;
use vstd::utf8::{valid_utf8, decode_utf8};

use crate::bitarray::{BitArray, bits_of, bytes_of_bits, lemma_wf_bytes_of_bits};
use crate::interleave::{evens, deinterleave_original_bytes};
use crate::pipeline::{packed_bytes, used_count};
use crate::schedule::{undo_schedule, undo_all};
use crate::utf8util::{ord_seq, utf8_bytes_to_ord_usize};

verus! {

/// The buffer bytes that undoing the key-derived schedule restores from
/// the packed data bytes.
pub open spec fn restored_bytes_spec(data: Seq<u8>, key: Seq<u8>, n: int) -> Seq<u8> {
    let used = used_count(data.len() as int, n);
    bytes_of_bits(
        undo_schedule(bits_of(packed_bytes(data, n), (used * 8) as nat), ord_seq(key)),
        n as nat,
    )
}

/// Undo the rotations of `data_bytes` (packed to capacity `N`) with the
/// schedule read off `key`, then deinterleave the used prefix back into
/// text.  Recovery succeeds exactly when the restored prefix decodes as
/// UTF-8.
pub fn decode_pipeline_from_bytes<const N: usize>(key: &[u8], data_bytes: &[u8]) -> (r: Result<
    String,
    String,
>)
    requires
        (N as int) * 8 <= usize::MAX,
    ensures
        ({
            let used = used_count(data_bytes@.len() as int, N as int);
            let prefix = restored_bytes_spec(data_bytes@, key@, N as int).take(used);
            &&& (r is Ok <==> valid_utf8(evens(prefix)))
            &&& (r matches Ok(s) ==> s@ == decode_utf8(evens(prefix)))
        }),
{
    let mut storage: [u8; N] = vstd::array::array_fill_for_copy_types(0u8);
    let used: usize = if data_bytes.len() < N {
        data_bytes.len()
    } else {
        N
    };
    let mut i: usize = 0;
    while i < used
        invariant
            0 <= i <= used <= N,
            used <= data_bytes@.len(),
            storage@.len() == N,
            forall|x: int| 0 <= x < i ==> storage@[x] == data_bytes@[x],
            forall|x: int| i <= x < N ==> storage@[x] == 0u8,
        decreases used - i,
    {
        storage[i] = data_bytes[i];
        i += 1;
    }
    proof {
        broadcast use vstd::array::group_array_axioms;

        assert(storage@ =~= packed_bytes(data_bytes@, N as int));
    }
    let mut bits = BitArray::<N>::new(storage, used * 8);
    let ordinals = utf8_bytes_to_ord_usize(key);
    undo_all(&mut bits, ordinals.as_slice());
    proof {
        lemma_wf_bytes_of_bits(bits.bytes(), bits.len_bits());
        assert(bits.bytes() == restored_bytes_spec(data_bytes@, key@, N as int)) by {
            assert(bits_of(bits.bytes(), bits.len_bits()) == bits.bits());
        }
    }
    let ab = bits.as_bytes();
    let mut restored: Vec<u8> = Vec::new();
    let mut j: usize = 0;
    while j < used
        invariant
            0 <= j <= used <= N,
            ab@.len() == N,
            ab@ == bits.bytes(),
            restored@.len() == j,
            forall|x: int| 0 <= x < j ==> restored@[x] == ab@[x],
        decreases used - j,
    {
        restored.push(ab[j]);
        j += 1;
    }
    proof {
        assert(restored@ =~= bits.bytes().take(used as int));
    }
    deinterleave_original_bytes(restored.as_slice())
}

} // verus!
