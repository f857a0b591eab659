//! Inverse pipeline: replay the rotation schedule backwards, re-derive the
//! key for an integrity check, and recover the interleaved prefix and the
//! original text.
//!
//! An integrity mismatch and a failed text decoding are reported in the
//! result, never raised as failures: the caller decides what is fatal.

use vstd::prelude::*;
use vstd::arithmetic::div_mod::{lemma_fundamental_div_mod_converse, lemma_div_is_ordered};
use vstd::utf8::{
    valid_utf8, decode_utf8, encode_utf8, encode_utf8_valid_utf8, encode_utf8_decode_utf8,
};

use crate::bitarray::{BitArray, bits_of, lemma_bytes_from_bits, lemma_whole_byte_tail_masked};
use crate::bytesutil::bytes_eq;
use crate::interleave::{evens, deinterleave_original_bytes};
use crate::keygen::{hkdf_sha512_same_len, hkdf_sha512_spec, salt_seq};
use crate::pipeline::{PipelineResult, forward_consistent, packed_bytes, used_count};
use crate::schedule::{undo_schedule, undo_all, lemma_schedule_roundtrip};

verus! {

/// Result of inverting the forward pipeline.
pub struct InverseResult<const N: usize> {
    /// The bit buffer restored to its pre-rotation state.
    pub restored_bitarray: BitArray<N>,
    /// The recovered interleaved bytes: the used prefix of the buffer.
    pub restored_interleaved: Vec<u8>,
    /// The reconstructed text, when the recovered bytes decode cleanly.
    pub restored_original: Option<String>,
    /// The key re-derived over the restored buffer bytes.
    pub hkdf_key_rederived: Vec<u8>,
    /// Whether the re-derived key matches the forward pipeline's key.
    pub hkdf_matches: bool,
    /// Number of meaningful bytes in the restored buffer.
    pub used_bytes: usize,
    /// Whether the forward pipeline had truncated the interleaved bytes.
    pub truncated: bool,
}

/// Invert a forward result: undo every rotation (reverse order, flipped
/// directions), extract the used bytes, deinterleave them back to text,
/// and re-derive the key over the restored buffer for comparison.
///
/// On a result the forward pipeline produced with the same salt and info,
/// this restores the packed buffer exactly, the key check passes, and —
/// when nothing was truncated — the original text comes back verbatim;
/// with insufficient capacity the recovered bytes are exactly the prefix
/// that was packed.
pub fn invert_pipeline<const N: usize>(
    result: &PipelineResult<N>,
    salt: Option<&[u8]>,
    info: &[u8],
) -> (r: InverseResult<N>)
    requires
        result.bitarray_final.wf(),
        N as int <= 255 * 64,
    ensures
        r.restored_bitarray.wf(),
        r.restored_bitarray.len_bits() == result.bitarray_final.len_bits(),
        r.restored_bitarray.bits() == undo_schedule(result.bitarray_final.bits(), result.ordinals@),
        r.used_bytes == result.bitarray_final.len_bits() / 8,
        r.restored_interleaved@ == r.restored_bitarray.bytes().take(r.used_bytes as int),
        r.truncated == (result.interleaved@.len() > N),
        r.hkdf_key_rederived@ == hkdf_sha512_spec(
            r.restored_bitarray.bytes(),
            salt_seq(salt),
            info@,
            N as nat,
        ),
        r.hkdf_matches == (r.hkdf_key_rederived@ == result.hkdf_key@),
        r.restored_original is Some <==> valid_utf8(evens(r.restored_interleaved@)),
        r.restored_original matches Some(s) ==> s@ == decode_utf8(evens(r.restored_interleaved@)),
        forward_consistent(*result, salt_seq(salt), info@) ==> ({
            &&& r.restored_bitarray.bytes() == packed_bytes(result.interleaved@, N as int)
            &&& r.used_bytes == used_count(result.interleaved@.len() as int, N as int)
            &&& r.restored_interleaved@ == result.interleaved@.take(r.used_bytes as int)
            &&& r.hkdf_matches
            &&& (!r.truncated ==> r.restored_interleaved@ == result.interleaved@)
            &&& (!r.truncated ==> r.restored_original is Some
                && r.restored_original->Some_0@ == result.original@)
        }),
{
    let mut restored = result.bitarray_final;
    undo_all(&mut restored, result.ordinals.as_slice());
    let used_bytes = restored.bit_len() / 8;
    proof {
        lemma_div_is_ordered(restored.len_bits() as int, (N as int) * 8, 8);
        lemma_fundamental_div_mod_converse((N as int) * 8, 8, N as int, 0);
        assert(used_bytes <= N);
    }
    let ab = restored.as_bytes();
    let mut restored_interleaved: Vec<u8> = Vec::new();
    let mut i: usize = 0;
    while i < used_bytes
        invariant
            0 <= i <= used_bytes <= N,
            ab@.len() == N,
            ab@ == restored.bytes(),
            restored_interleaved@.len() == i,
            forall|x: int| 0 <= x < i ==> restored_interleaved@[x] == ab@[x],
        decreases used_bytes - i,
    {
        restored_interleaved.push(ab[i]);
        i += 1;
    }
    proof {
        assert(restored_interleaved@ =~= restored.bytes().take(used_bytes as int));
    }
    let restored_original = match deinterleave_original_bytes(restored_interleaved.as_slice()) {
        Ok(s) => Some(s),
        Err(_) => None,
    };
    let hkdf_key_rederived = hkdf_sha512_same_len(restored.as_bytes().as_slice(), salt, info);
    let hkdf_matches = bytes_eq(hkdf_key_rederived.as_slice(), result.hkdf_key.as_slice());
    let truncated = result.interleaved.len() > N;
    proof {
        if forward_consistent(*result, salt_seq(salt), info@) {
            let inter = result.interleaved@;
            let used_fc = used_count(inter.len() as int, N as int);
            let packed = packed_bytes(inter, N as int);
            let pre_bits = bits_of(packed, (used_fc * 8) as nat);
            lemma_schedule_roundtrip(pre_bits, result.ordinals@);
            assert(restored.bits() == pre_bits);
            lemma_fundamental_div_mod_converse(used_fc * 8, 8, used_fc, 0);
            assert(used_bytes as int == used_fc);
            lemma_whole_byte_tail_masked(packed, used_fc);
            lemma_bytes_from_bits(restored.bytes(), packed, (used_fc * 8) as nat);
            assert(restored.bytes() == packed);
            assert(restored_interleaved@ =~= inter.take(used_fc));
            if !truncated {
                assert(restored_interleaved@ =~= inter);
                let ib = encode_utf8(result.original@);
                assert(evens(restored_interleaved@) == ib);
                encode_utf8_valid_utf8(result.original@);
                encode_utf8_decode_utf8(result.original@);
            }
        }
    }
    InverseResult {
        restored_bitarray: restored,
        restored_interleaved,
        restored_original,
        hkdf_key_rederived,
        hkdf_matches,
        used_bytes,
        truncated,
    }
}

} // verus!
