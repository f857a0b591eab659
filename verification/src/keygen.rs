//! Key derivation over the buffer bytes.
//!
//! The derived keys come from HKDF (RFC 5869): an extract step turns salt
//! and input into a pseudorandom key, and an expand step chains
//! counter-labelled HMAC blocks to the requested length.  The HMAC
//! primitive is ring's; the extract/expand composition is carried out and
//! verified here, block by block.

use vstd::prelude::*;
use vstd::arithmetic::div_mod::lemma_fundamental_div_mod;

use crate::bytesutil::push_all;

verus! {

/// Named result of ring's HMAC-SHA256: a pure function of key and message.
pub uninterp spec fn hmac_sha256_of(key: Seq<u8>, msg: Seq<u8>) -> Seq<u8>;

/// Named result of ring's HMAC-SHA512: a pure function of key and message.
pub uninterp spec fn hmac_sha512_of(key: Seq<u8>, msg: Seq<u8>) -> Seq<u8>;

/// Relies on `ring::hmac::sign` with `HMAC_SHA256`: the tag depends on the
/// key and message alone and is 32 bytes long.
#[verifier::external_body]
fn hmac_sha256(key: &[u8], msg: &[u8]) -> (r: Vec<u8>)
    ensures
        r@ == hmac_sha256_of(key@, msg@),
        r@.len() == 32,
{
    let k = ring::hmac::Key::new(ring::hmac::HMAC_SHA256, key);
    ring::hmac::sign(&k, msg).as_ref().to_vec()
}

/// Relies on `ring::hmac::sign` with `HMAC_SHA512`: the tag depends on the
/// key and message alone and is 64 bytes long.
#[verifier::external_body]
fn hmac_sha512(key: &[u8], msg: &[u8]) -> (r: Vec<u8>)
    ensures
        r@ == hmac_sha512_of(key@, msg@),
        r@.len() == 64,
{
    let k = ring::hmac::Key::new(ring::hmac::HMAC_SHA512, key);
    ring::hmac::sign(&k, msg).as_ref().to_vec()
}

/// The salt bytes actually used: an absent salt acts as an empty one.
pub open spec fn salt_seq(salt: Option<&[u8]>) -> Seq<u8> {
    match salt {
        Some(s) => s@,
        None => Seq::empty(),
    }
}

/// RFC 5869 extract with SHA-512: the pseudorandom key is the HMAC of the
/// input keying material under the salt.
pub open spec fn hkdf_sha512_prk(ikm: Seq<u8>, salt: Seq<u8>) -> Seq<u8> {
    hmac_sha512_of(salt, ikm)
}

/// Block `T(i)` of RFC 5869 expand with SHA-512 (1-based); `T(0)` is empty.
pub open spec fn hkdf_sha512_block(prk: Seq<u8>, info: Seq<u8>, i: nat) -> Seq<u8>
    decreases i,
{
    if i == 0 {
        Seq::empty()
    } else {
        hmac_sha512_of(prk, hkdf_sha512_block(prk, info, (i - 1) as nat) + info + seq![i as u8])
    }
}

/// The concatenation `T(1) + ... + T(n)`.
pub open spec fn hkdf_sha512_stream(prk: Seq<u8>, info: Seq<u8>, n: nat) -> Seq<u8>
    decreases n,
{
    if n == 0 {
        Seq::empty()
    } else {
        hkdf_sha512_stream(prk, info, (n - 1) as nat) + hkdf_sha512_block(prk, info, n)
    }
}

/// The HKDF-SHA512 output of length `l`: the first `l` bytes of the
/// expanded block stream.
pub open spec fn hkdf_sha512_spec(ikm: Seq<u8>, salt: Seq<u8>, info: Seq<u8>, l: nat) -> Seq<u8> {
    hkdf_sha512_stream(hkdf_sha512_prk(ikm, salt), info, ((l + 63) / 64) as nat).take(l as int)
}

/// RFC 5869 extract with SHA-256.
pub open spec fn hkdf_sha256_prk(ikm: Seq<u8>, salt: Seq<u8>) -> Seq<u8> {
    hmac_sha256_of(salt, ikm)
}

/// Block `T(i)` of RFC 5869 expand with SHA-256 (1-based); `T(0)` is empty.
pub open spec fn hkdf_sha256_block(prk: Seq<u8>, info: Seq<u8>, i: nat) -> Seq<u8>
    decreases i,
{
    if i == 0 {
        Seq::empty()
    } else {
        hmac_sha256_of(prk, hkdf_sha256_block(prk, info, (i - 1) as nat) + info + seq![i as u8])
    }
}

/// The concatenation `T(1) + ... + T(n)`.
pub open spec fn hkdf_sha256_stream(prk: Seq<u8>, info: Seq<u8>, n: nat) -> Seq<u8>
    decreases n,
{
    if n == 0 {
        Seq::empty()
    } else {
        hkdf_sha256_stream(prk, info, (n - 1) as nat) + hkdf_sha256_block(prk, info, n)
    }
}

/// The HKDF-SHA256 output of length `l`.
pub open spec fn hkdf_sha256_spec(ikm: Seq<u8>, salt: Seq<u8>, info: Seq<u8>, l: nat) -> Seq<u8> {
    hkdf_sha256_stream(hkdf_sha256_prk(ikm, salt), info, ((l + 31) / 32) as nat).take(l as int)
}

/// Derive a key of the same length as `input` with HKDF-SHA512.
/// Deterministic: the same input, salt and info always give the same key.
/// The requested length is bounded by the 255-block limit of RFC 5869.
pub fn hkdf_sha512_same_len(input: &[u8], salt: Option<&[u8]>, info: &[u8]) -> (r: Vec<u8>)
    requires
        input@.len() <= 255 * 64,
    ensures
        r@ == hkdf_sha512_spec(input@, salt_seq(salt), info@, input@.len()),
        r@.len() == input@.len(),
{
    let empty: Vec<u8> = Vec::new();
    let salt_bytes: &[u8] = match salt {
        Some(s) => s,
        None => empty.as_slice(),
    };
    let prk = hmac_sha512(salt_bytes, input);
    let ghost prkv = prk@;
    let l = input.len();
    let ghost nblocks = ((l + 63) / 64) as nat;
    let mut okm: Vec<u8> = Vec::new();
    let mut t: Vec<u8> = Vec::new();
    let mut b: usize = 0;
    while okm.len() < l
        invariant
            prk@ == prkv,
            prkv == hkdf_sha512_prk(input@, salt_seq(salt)),
            l == input@.len() <= 255 * 64,
            nblocks == ((l + 63) / 64) as nat,
            t@ == hkdf_sha512_block(prkv, info@, b as nat),
            okm@ == hkdf_sha512_stream(prkv, info@, b as nat),
            okm@.len() == 64 * b,
            64 * b <= l + 63,
            b <= nblocks,
        decreases nblocks - b,
    {
        proof {
            lemma_fundamental_div_mod(l as int + 63, 64);
            assert(b < nblocks);
        }
        let c: u8 = (b + 1) as u8;
        let mut msg: Vec<u8> = Vec::new();
        push_all(&mut msg, t.as_slice());
        push_all(&mut msg, info);
        msg.push(c);
        proof {
            assert(msg@ =~= hkdf_sha512_block(prkv, info@, b as nat) + info@ + seq![
                (b + 1) as u8,
            ]);
        }
        t = hmac_sha512(prk.as_slice(), msg.as_slice());
        push_all(&mut okm, t.as_slice());
        b = b + 1;
    }
    proof {
        lemma_fundamental_div_mod(l as int + 63, 64);
        assert(b as nat == nblocks);
    }
    okm.truncate(l);
    proof {
        assert(okm@ == hkdf_sha512_stream(prkv, info@, nblocks).take(l as int));
    }
    okm
}

/// Derive a key of the same length as `input` with HKDF-SHA256.
/// Deterministic: the same input, salt and info always give the same key.
pub fn hkdf_key_same_len(input: &[u8], salt: Option<&[u8]>, info: &[u8]) -> (r: Vec<u8>)
    requires
        input@.len() <= 255 * 32,
    ensures
        r@ == hkdf_sha256_spec(input@, salt_seq(salt), info@, input@.len()),
        r@.len() == input@.len(),
{
    let empty: Vec<u8> = Vec::new();
    let salt_bytes: &[u8] = match salt {
        Some(s) => s,
        None => empty.as_slice(),
    };
    let prk = hmac_sha256(salt_bytes, input);
    let ghost prkv = prk@;
    let l = input.len();
    let ghost nblocks = ((l + 31) / 32) as nat;
    let mut okm: Vec<u8> = Vec::new();
    let mut t: Vec<u8> = Vec::new();
    let mut b: usize = 0;
    while okm.len() < l
        invariant
            prk@ == prkv,
            prkv == hkdf_sha256_prk(input@, salt_seq(salt)),
            l == input@.len() <= 255 * 32,
            nblocks == ((l + 31) / 32) as nat,
            t@ == hkdf_sha256_block(prkv, info@, b as nat),
            okm@ == hkdf_sha256_stream(prkv, info@, b as nat),
            okm@.len() == 32 * b,
            32 * b <= l + 31,
            b <= nblocks,
        decreases nblocks - b,
    {
        proof {
            lemma_fundamental_div_mod(l as int + 31, 32);
            assert(b < nblocks);
        }
        let c: u8 = (b + 1) as u8;
        let mut msg: Vec<u8> = Vec::new();
        push_all(&mut msg, t.as_slice());
        push_all(&mut msg, info);
        msg.push(c);
        proof {
            assert(msg@ =~= hkdf_sha256_block(prkv, info@, b as nat) + info@ + seq![
                (b + 1) as u8,
            ]);
        }
        t = hmac_sha256(prk.as_slice(), msg.as_slice());
        push_all(&mut okm, t.as_slice());
        b = b + 1;
    }
    proof {
        lemma_fundamental_div_mod(l as int + 31, 32);
        assert(b as nat == nblocks);
    }
    okm.truncate(l);
    proof {
        assert(okm@ == hkdf_sha256_stream(prkv, info@, nblocks).take(l as int));
    }
    okm
}

/// Relies on `rand::rngs::OsRng` (the operating system's RNG): the result
/// is random key material whose length equals the length of `input` —
/// nothing else about its value is determined.
#[verifier::external_body]
pub fn csprng_key_same_len_std(input: &[u8]) -> (r: Vec<u8>)
    ensures
        r@.len() == input@.len(),
{
    let mut key = vec![0u8; input.len()];
    rand::RngCore::fill_bytes(&mut rand::rngs::OsRng, &mut key);
    key
}

} // verus!
