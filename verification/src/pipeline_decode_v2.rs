//! Decode path for the key-derived pipeline, from raw bytes, with an
//! integrity check.
//!
//! The supplied key must have the buffer's capacity; the rotation schedule
//! is rebuilt from its bytes — for this variant that is the authoritative
//! source, the same one the forward pipeline used.  After undoing the
//! rotations the key is re-derived over the restored buffer and compared:
//! a mismatch is a hard error here.

use vstd::prelude::*;
use vstd::string::StringExecFns;
use vstd::utf8::{valid_utf8, decode_utf8, encode_utf8};

use crate::bitarray::{BitArray, bit_of, bits_of, lemma_wf_bytes_of_bits};
use crate::bytesutil::bytes_eq;
use crate::interleave::{evens, deinterleave_original_bytes};
use crate::keygen::{hkdf_sha512_same_len, hkdf_sha512_spec, salt_seq};
use crate::pipeline::{packed_bytes, used_count};
use crate::pipeline_decode::restored_bytes_spec;
use crate::pipeline_v2::{PipelineV2Result, forward_consistent_v2};
use crate::schedule::{undo_schedule, undo_all};
use crate::utf8util::utf8_bytes_to_ord_usize;

verus! {


/// Feeding this decode path what the key-derived forward pipeline produced
/// — its derived key and the used prefix of its rotated buffer — restores
/// the packed pre-rotation buffer, passes the integrity check, and (when
/// nothing was truncated) yields the original text's bytes.
pub proof fn lemma_decode_v2_matches_forward<const N: usize>(
    r: PipelineV2Result<N>,
    salt: Seq<u8>,
    info: Seq<u8>,
)
    requires
        forward_consistent_v2(r, salt, info),
    ensures
        ({
            let rotated = r.bitarray_final.bytes().take(r.used_bytes as int);
            let restored = restored_bytes_spec(rotated, r.hkdf_key@, N as int);
            let used = used_count(r.interleaved@.len() as int, N as int);
            &&& restored == packed_bytes(r.interleaved@, N as int)
            &&& hkdf_sha512_spec(restored, salt, info, N as nat) == r.hkdf_key@
            &&& (r.interleaved@.len() <= N ==> evens(restored.take(used)) == encode_utf8(
                r.original@,
            ))
        }),
{
    let inter = r.interleaved@;
    let used = used_count(inter.len() as int, N as int);
    let rotated = r.bitarray_final.bytes().take(used);
    let packed = packed_bytes(inter, N as int);
    let pre = bits_of(packed, (used * 8) as nat);
    let ords = crate::utf8util::ord_seq(r.hkdf_key@);
    // The rotated prefix, re-packed to capacity, reads back as the final
    // buffer's bits: every live bit lives in a prefix byte.
    assert forall|j: int| 0 <= j < used * 8 implies bit_of(packed_bytes(rotated, N as int), j)
        == bit_of(r.bitarray_final.bytes(), j) by {
        vstd::arithmetic::div_mod::lemma_fundamental_div_mod(j, 8);
        vstd::arithmetic::div_mod::lemma_mod_division_less_than_divisor(j, 8);
        vstd::arithmetic::div_mod::lemma_div_pos_is_pos(j, 8);
        assert(j / 8 < used) by {
            assert(8 * (j / 8) <= j);
        }
        assert(packed_bytes(rotated, N as int)[j / 8] == r.bitarray_final.bytes()[j / 8]);
    }
    assert(bits_of(packed_bytes(rotated, N as int), (used * 8) as nat)
        =~= r.bitarray_final.bits());
    crate::schedule::lemma_schedule_roundtrip(pre, ords);
    assert(undo_schedule(bits_of(packed_bytes(rotated, N as int), (used * 8) as nat), ords)
        == pre);
    crate::bitarray::lemma_whole_byte_tail_masked(packed, used);
    crate::bitarray::lemma_wf_bytes_of_bits(packed, (used * 8) as nat);
    assert(restored_bytes_spec(rotated, r.hkdf_key@, N as int) == packed);
    if inter.len() <= N {
        assert(packed.take(used) =~= inter);
    }
}

/// Undo the rotations of `rotated` (packed to capacity `N`) with the
/// schedule read off the key bytes, check the key against one re-derived
/// over the restored buffer, and deinterleave the used prefix.
///
/// Fails when the key length is not `N`, when the re-derived key differs
/// (the payload or key is not the one the forward pipeline produced), or
/// when the restored prefix is not valid UTF-8 — each with its own error.
pub fn decode_pipeline_v2_from_bytes<const N: usize>(
    hkdf_key: &[u8],
    rotated: &[u8],
    salt: Option<&[u8]>,
    info: &[u8],
) -> (r: Result<String, String>)
    requires
        N as int <= 255 * 64,
    ensures
        ({
            let used = used_count(rotated@.len() as int, N as int);
            let restored = restored_bytes_spec(rotated@, hkdf_key@, N as int);
            let prefix = restored.take(used);
            if hkdf_key@.len() != N {
                r matches Err(e) && e@ == "hkdf_key length does not match the capacity"@
            } else if hkdf_sha512_spec(restored, salt_seq(salt), info@, N as nat) != hkdf_key@ {
                r matches Err(e) && e@
                    == "hkdf mismatch: decoded payload does not match the decrypted key"@
            } else {
                (r is Ok <==> valid_utf8(evens(prefix))) && (r matches Ok(s) ==> s@ == decode_utf8(
                    evens(prefix),
                ))
            }
        }),
{
    if hkdf_key.len() != N {
        return Err(String::from_str("hkdf_key length does not match the capacity"));
    }
    let mut storage: [u8; N] = vstd::array::array_fill_for_copy_types(0u8);
    let used: usize = if rotated.len() < N {
        rotated.len()
    } else {
        N
    };
    let mut i: usize = 0;
    while i < used
        invariant
            0 <= i <= used <= N,
            used <= rotated@.len(),
            storage@.len() == N,
            forall|x: int| 0 <= x < i ==> storage@[x] == rotated@[x],
            forall|x: int| i <= x < N ==> storage@[x] == 0u8,
        decreases used - i,
    {
        storage[i] = rotated[i];
        i += 1;
    }
    proof {
        broadcast use vstd::array::group_array_axioms;

        assert(storage@ =~= packed_bytes(rotated@, N as int));
    }
    let mut bits = BitArray::<N>::new(storage, used * 8);
    let ordinals = utf8_bytes_to_ord_usize(hkdf_key);
    undo_all(&mut bits, ordinals.as_slice());
    proof {
        lemma_wf_bytes_of_bits(bits.bytes(), bits.len_bits());
        assert(bits.bytes() == restored_bytes_spec(rotated@, hkdf_key@, N as int)) by {
            assert(bits_of(bits.bytes(), bits.len_bits()) == bits.bits());
        }
    }
    let rederived = hkdf_sha512_same_len(bits.as_bytes().as_slice(), salt, info);
    if !bytes_eq(rederived.as_slice(), hkdf_key) {
        return Err(
            String::from_str("hkdf mismatch: decoded payload does not match the decrypted key"),
        );
    }
    let ab = bits.as_bytes();
    let mut restored: Vec<u8> = Vec::new();
    let mut j: usize = 0;
    while j < used
        invariant
            0 <= j <= used <= N,
            ab@.len() == N,
            ab@ == bits.bytes(),
            restored@.len() == j,
            forall|x: int| 0 <= x < j ==> restored@[x] == ab@[x],
        decreases used - j,
    {
        restored.push(ab[j]);
        j += 1;
    }
    proof {
        assert(restored@ =~= bits.bytes().take(used as int));
    }
    deinterleave_original_bytes(restored.as_slice())
}

} // verus!
