//! Forward pipeline, plaintext-ordinal variant.
//!
//! The input text is interleaved with filler bytes, packed into a
//! fixed-capacity bit buffer, a key is derived over the buffer bytes, and
//! the buffer is scrambled by the rotation schedule read off the ordinals
//! of the text's own bytes.

use vstd::prelude::*;
use vstd::string::{StringExecFns, StringSliceAdditionalSpecFns};
use vstd::utf8::encode_utf8;

use crate::bitarray::{BitArray, bits_of, tail_masked, lemma_whole_byte_tail_masked};
use crate::interleave::{evens, interleave_with_random_bytes};
use crate::keygen::{hkdf_sha512_same_len, hkdf_sha512_spec, salt_seq};
use crate::schedule::{apply_schedule, apply_all};
use crate::utf8util::{ord_seq, utf8_bytes_to_ord_usize};

verus! {

/// The bytes packed into a buffer of capacity `n`: the first `min(len, n)`
/// input bytes, zero-padded to `n`.
pub open spec fn packed_bytes(inter: Seq<u8>, n: int) -> Seq<u8> {
    Seq::new(
        n as nat,
        |i: int|
            if i < inter.len() {
                inter[i]
            } else {
                0u8
            },
    )
}

/// How many buffer bytes the input occupies: its length, clipped to the
/// capacity.
pub open spec fn used_count(inter_len: int, n: int) -> int {
    if inter_len < n {
        inter_len
    } else {
        n
    }
}

/// Result of the forward pipeline, with every intermediate value retained.
pub struct PipelineResult<const N: usize> {
    /// The input text.
    pub original: String,
    /// The raw interleaved bytes, before packing.
    pub interleaved: Vec<u8>,
    /// The bit buffer after all rotations.
    pub bitarray_final: BitArray<N>,
    /// The key derived over the packed buffer bytes, before rotation.
    pub hkdf_key: Vec<u8>,
    /// The rotation schedule: the ordinal of each input byte.
    pub ordinals: Vec<usize>,
}

/// A result exactly as the forward pipeline produces it for the given salt
/// and info: interleaving layout, schedule source, key derivation and the
/// rotated buffer all agree.
pub open spec fn forward_consistent<const N: usize>(
    r: PipelineResult<N>,
    salt: Seq<u8>,
    info: Seq<u8>,
) -> bool {
    let ib = encode_utf8(r.original@);
    let used = used_count(r.interleaved@.len() as int, N as int);
    &&& r.bitarray_final.wf()
    &&& (ib.len() == 0 ==> r.interleaved@.len() == 0)
    &&& (ib.len() > 0 ==> r.interleaved@.len() == 2 * ib.len() - 1)
    &&& evens(r.interleaved@) == ib
    &&& r.ordinals@ == ord_seq(ib)
    &&& r.bitarray_final.len_bits() == used * 8
    &&& r.bitarray_final.bits() == apply_schedule(
        bits_of(packed_bytes(r.interleaved@, N as int), (used * 8) as nat),
        r.ordinals@,
    )
    &&& r.hkdf_key@ == hkdf_sha512_spec(packed_bytes(r.interleaved@, N as int), salt, info, N as nat)
    &&& r.hkdf_key@.len() == N
}

/// Run the forward pipeline on `input`: interleave its UTF-8 bytes, pack
/// up to `N` of them into the bit buffer (truncating when they do not
/// fit), derive a key over the buffer bytes with HKDF-SHA512, and rotate
/// the buffer once per input byte — left for an even ordinal, right for an
/// odd one.
pub fn process_str_pipeline<const N: usize>(input: &str, salt: Option<&[u8]>, info: &[u8]) -> (r:
    PipelineResult<N>)
    requires
        N as int <= 255 * 64,
    ensures
        forward_consistent(r, salt_seq(salt), info@),
        r.original@ == input@,
{
    let inter = interleave_with_random_bytes(input);
    let mut storage: [u8; N] = vstd::array::array_fill_for_copy_types(0u8);
    let used: usize = if inter.len() < N {
        inter.len()
    } else {
        N
    };
    let mut i: usize = 0;
    while i < used
        invariant
            0 <= i <= used <= N,
            used <= inter@.len(),
            storage@.len() == N,
            forall|x: int| 0 <= x < i ==> storage@[x] == inter@[x],
            forall|x: int| i <= x < N ==> storage@[x] == 0u8,
        decreases used - i,
    {
        storage[i] = inter[i];
        i += 1;
    }
    proof {
        broadcast use vstd::array::group_array_axioms;

        assert(storage@ =~= packed_bytes(inter@, N as int));
    }
    let bit_len = used * 8;
    let mut bits = BitArray::<N>::new(storage, bit_len);
    proof {
        lemma_whole_byte_tail_masked(packed_bytes(inter@, N as int), used as int);
        crate::bitarray::lemma_bytes_from_bits(
            bits.bytes(),
            packed_bytes(inter@, N as int),
            (used * 8) as nat,
        );
    }
    let hkdf_key = hkdf_sha512_same_len(bits.as_bytes().as_slice(), salt, info);
    let ords = utf8_bytes_to_ord_usize(input.as_bytes());
    apply_all(&mut bits, ords.as_slice());
    PipelineResult {
        original: String::from_str(input),
        interleaved: inter,
        bitarray_final: bits,
        hkdf_key,
        ordinals: ords,
    }
}

} // verus!
