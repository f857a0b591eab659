//! Forward pipeline, key-derived variant.
//!
//! As the plaintext-ordinal pipeline, except that the rotation schedule is
//! read off the bytes of the derived key (length `N`) instead of the
//! plaintext: the rotation sequence is a function of the derived key, not
//! of the input directly.

use vstd::prelude::*;
use vstd::string::{StringExecFns, StringSliceAdditionalSpecFns};
use vstd::utf8::encode_utf8;

use crate::bitarray::{BitArray, bits_of, lemma_whole_byte_tail_masked, lemma_bytes_from_bits};
use crate::interleave::{evens, interleave_with_random_bytes};
use crate::keygen::{hkdf_sha512_same_len, hkdf_sha512_spec, salt_seq};
use crate::pipeline::{packed_bytes, used_count};
use crate::schedule::{apply_schedule, apply_all};
use crate::utf8util::{ord_seq, utf8_bytes_to_ord_usize};

verus! {

/// Result of the key-derived forward pipeline.
#[derive(Clone)]
pub struct PipelineV2Result<const N: usize> {
    /// The input text.
    pub original: String,
    /// The raw interleaved bytes, before packing.
    pub interleaved: Vec<u8>,
    /// The bit buffer after all rotations.
    pub bitarray_final: BitArray<N>,
    /// The key derived over the packed buffer bytes (length `N`).
    pub hkdf_key: Vec<u8>,
    /// Interleaved bytes actually stored in the buffer.
    pub used_bytes: usize,
}

/// Compute rotation ordinals from the bytes of a derived key.
fn ordinals_from_key_bytes(key: &[u8]) -> (r: Vec<usize>)
    ensures
        r@ == ord_seq(key@),
{
    utf8_bytes_to_ord_usize(key)
}

/// A result exactly as the key-derived forward pipeline produces it for
/// the given salt and info.
pub open spec fn forward_consistent_v2<const N: usize>(
    r: PipelineV2Result<N>,
    salt: Seq<u8>,
    info: Seq<u8>,
) -> bool {
    let ib = encode_utf8(r.original@);
    let used = used_count(r.interleaved@.len() as int, N as int);
    &&& r.bitarray_final.wf()
    &&& (ib.len() == 0 ==> r.interleaved@.len() == 0)
    &&& (ib.len() > 0 ==> r.interleaved@.len() == 2 * ib.len() - 1)
    &&& evens(r.interleaved@) == ib
    &&& r.used_bytes == used
    &&& r.bitarray_final.len_bits() == used * 8
    &&& r.hkdf_key@ == hkdf_sha512_spec(packed_bytes(r.interleaved@, N as int), salt, info, N as nat)
    &&& r.hkdf_key@.len() == N
    &&& r.bitarray_final.bits() == apply_schedule(
        bits_of(packed_bytes(r.interleaved@, N as int), (used * 8) as nat),
        ord_seq(r.hkdf_key@),
    )
}

/// Run the key-derived forward pipeline: interleave, pack into the bit
/// buffer, derive a key of length `N` over the buffer bytes, then rotate
/// once per key byte — left for an even ordinal, right for an odd one.
pub fn process_str_pipeline_v2<const N: usize>(input: &str, salt: Option<&[u8]>, info: &[u8]) -> (r:
    PipelineV2Result<N>)
    requires
        N as int <= 255 * 64,
    ensures
        forward_consistent_v2(r, salt_seq(salt), info@),
        r.original@ == input@,
{
    let inter = interleave_with_random_bytes(input);
    let mut storage: [u8; N] = vstd::array::array_fill_for_copy_types(0u8);
    let used: usize = if inter.len() < N {
        inter.len()
    } else {
        N
    };
    let mut i: usize = 0;
    while i < used
        invariant
            0 <= i <= used <= N,
            used <= inter@.len(),
            storage@.len() == N,
            forall|x: int| 0 <= x < i ==> storage@[x] == inter@[x],
            forall|x: int| i <= x < N ==> storage@[x] == 0u8,
        decreases used - i,
    {
        storage[i] = inter[i];
        i += 1;
    }
    proof {
        broadcast use vstd::array::group_array_axioms;

        assert(storage@ =~= packed_bytes(inter@, N as int));
    }
    let bit_len = used * 8;
    let mut bits = BitArray::<N>::new(storage, bit_len);
    proof {
        lemma_whole_byte_tail_masked(packed_bytes(inter@, N as int), used as int);
        lemma_bytes_from_bits(bits.bytes(), packed_bytes(inter@, N as int), (used * 8) as nat);
    }
    let hkdf_key = hkdf_sha512_same_len(bits.as_bytes().as_slice(), salt, info);
    let ords = ordinals_from_key_bytes(hkdf_key.as_slice());
    apply_all(&mut bits, ords.as_slice());
    PipelineV2Result {
        original: String::from_str(input),
        interleaved: inter,
        bitarray_final: bits,
        hkdf_key,
        used_bytes: used,
    }
}

} // verus!
