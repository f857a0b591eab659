//! Password-protected key envelopes.
//!
//! A key is sealed into a binary envelope: a fixed 16-byte header (magic
//! marker, algorithm identifiers, iteration count, salt length, nonce
//! length, plaintext length), then the salt, the nonce, and the
//! authenticated ciphertext.  The AEAD key comes from the password by
//! PBKDF2-HMAC-SHA256; the header doubles as the associated data, so any
//! corruption of it fails authentication.  A wrong password, a truncated
//! payload or a corrupted header all fail without releasing a byte of
//! plaintext.

use vstd::prelude::*;

use crate::bytesutil::push_all;

verus! {

/// Recommended PBKDF2 iteration count.
pub const DEFAULT_PBKDF2_ITERATIONS: u32 = 600000;

/// Recommended salt length in bytes.
pub const DEFAULT_SALT_LEN: usize = 16;

/// Named result of ring's PBKDF2-HMAC-SHA256 with 32 bytes of output: a
/// pure function of password, salt and iteration count.
pub uninterp spec fn pbkdf2_sha256_of(password: Seq<u8>, salt: Seq<u8>, iterations: u32) -> Seq<u8>;

/// Named result of ring's ChaCha20-Poly1305 sealing: ciphertext plus tag,
/// a pure function of key, nonce, associated data and plaintext.
pub uninterp spec fn chacha20poly1305_seal(
    key: Seq<u8>,
    nonce: Seq<u8>,
    aad: Seq<u8>,
    pt: Seq<u8>,
) -> Seq<u8>;

/// Relies on `ring::pbkdf2::derive` with `PBKDF2_HMAC_SHA256`: the 32-byte
/// key depends on the password, salt and iteration count alone.
#[verifier::external_body]
fn derive_aead_key_pbkdf2(password: &[u8], salt: &[u8], iterations: u32) -> (r: Vec<u8>)
    requires
        iterations >= 1,
    ensures
        r@ == pbkdf2_sha256_of(password@, salt@, iterations),
        r@.len() == 32,
{
    let mut out = [0u8; 32];
    let iter = core::num::NonZeroU32::new(iterations).unwrap();
    ring::pbkdf2::derive(ring::pbkdf2::PBKDF2_HMAC_SHA256, iter, salt, password, &mut out);
    out.to_vec()
}

/// Relies on `ring::rand::SystemRandom`: random bytes from the system;
/// only the length of a successful result is determined.
#[verifier::external_body]
fn random_bytes(len: usize) -> (r: Option<Vec<u8>>)
    ensures
        r matches Some(v) ==> v@.len() == len,
{
    let rng = ring::rand::SystemRandom::new();
    let mut out = vec![0u8; len];
    match ring::rand::SecureRandom::fill(&rng, &mut out) {
        Ok(()) => Some(out),
        Err(_) => None,
    }
}

/// Relies on `ring::aead::LessSafeKey::seal_in_place_append_tag` with
/// `CHACHA20_POLY1305`: the ciphertext with its 16-byte tag appended is a
/// deterministic function of key, nonce, associated data and plaintext.
#[verifier::external_body]
fn aead_seal(key: &[u8], nonce: &[u8], aad: &[u8], pt: &[u8]) -> (r: Option<Vec<u8>>)
    requires
        key@.len() == 32,
        nonce@.len() == 12,
    ensures
        r matches Some(c) ==> c@ == chacha20poly1305_seal(key@, nonce@, aad@, pt@) && c@.len() == pt@.len() + 16,
{
    let unbound = match ring::aead::UnboundKey::new(&ring::aead::CHACHA20_POLY1305, key) {
        Ok(k) => k,
        Err(_) => return None,
    };
    let k = ring::aead::LessSafeKey::new(unbound);
    let n = match ring::aead::Nonce::try_assume_unique_for_key(nonce) {
        Ok(n) => n,
        Err(_) => return None,
    };
    let mut buf = pt.to_vec();
    match k.seal_in_place_append_tag(n, ring::aead::Aad::from(aad), &mut buf) {
        Ok(()) => Some(buf),
        Err(_) => None,
    }
}

/// Relies on `ring::aead::LessSafeKey::open_in_place` with
/// `CHACHA20_POLY1305`: authenticated decryption yields a plaintext
/// exactly for a ciphertext sealed under the same key, nonce and
/// associated data, and fails authentication otherwise.  Decryption is a
/// function of the ciphertext, so the plaintext it yields is the only one
/// whose sealing gives that ciphertext.
#[verifier::external_body]
fn aead_open(key: &[u8], nonce: &[u8], aad: &[u8], ct: &[u8]) -> (r: Option<Vec<u8>>)
    requires
        key@.len() == 32,
        nonce@.len() == 12,
    ensures
        r matches Some(p) ==> ct@ == chacha20poly1305_seal(key@, nonce@, aad@, p@) && p@.len() + 16
            == ct@.len(),
        r matches Some(p) ==> forall|pt: Seq<u8>|
            ct@ == chacha20poly1305_seal(key@, nonce@, aad@, pt) ==> pt == p@,
        forall|pt: Seq<u8>| ct@ == chacha20poly1305_seal(key@, nonce@, aad@, pt) ==> r is Some,
{
    let unbound = match ring::aead::UnboundKey::new(&ring::aead::CHACHA20_POLY1305, key) {
        Ok(k) => k,
        Err(_) => return None,
    };
    let k = ring::aead::LessSafeKey::new(unbound);
    let n = match ring::aead::Nonce::try_assume_unique_for_key(nonce) {
        Ok(n) => n,
        Err(_) => return None,
    };
    let mut buf = ct.to_vec();
    match k.open_in_place(n, ring::aead::Aad::from(aad), &mut buf) {
        Ok(pt) => Some(pt.to_vec()),
        Err(_) => None,
    }
}

/// The four big-endian bytes of a `u32`.
pub open spec fn u32_be_spec(x: u32) -> Seq<u8> {
    seq![
        ((x >> 24u32) & 0xFF) as u8,
        ((x >> 16u32) & 0xFF) as u8,
        ((x >> 8u32) & 0xFF) as u8,
        (x & 0xFF) as u8,
    ]
}

/// The `u32` read from four big-endian bytes.
pub open spec fn u32_from_be_spec(b0: u8, b1: u8, b2: u8, b3: u8) -> u32 {
    ((b0 as u32) * 0x1000000 + (b1 as u32) * 0x10000 + (b2 as u32) * 0x100 + (b3 as u32)) as u32
}

fn u32_be(x: u32) -> (r: Vec<u8>)
    ensures
        r@ == u32_be_spec(x),
{
    let r = vec![(x >> 24) as u8, (x >> 16) as u8, (x >> 8) as u8, x as u8];
    proof {
        assert((x >> 24u32) as u8 == (((x >> 24u32) & 0xFF) as u8) && (x >> 16u32) as u8 == (((x
            >> 16u32) & 0xFF) as u8) && (x >> 8u32) as u8 == (((x >> 8u32) & 0xFF) as u8) && x as u8
            == ((x & 0xFF) as u8)) by (bit_vector);
        assert(r@ =~= u32_be_spec(x));
    }
    r
}

fn read_u32_be(b: &[u8]) -> (r: u32)
    requires
        b@.len() >= 4,
    ensures
        r == u32_from_be_spec(b@[0], b@[1], b@[2], b@[3]),
{
    let b0 = b[0];
    let b1 = b[1];
    let b2 = b[2];
    let b3 = b[3];
    proof {
        assert(((b0 as u32) << 24u32) | ((b1 as u32) << 16u32) | ((b2 as u32) << 8u32) | (b3 as u32)
            == (b0 as u32) * 0x1000000 + (b1 as u32) * 0x10000 + (b2 as u32) * 0x100 + (
        b3 as u32)) by (bit_vector);
    }
    ((b0 as u32) << 24) | ((b1 as u32) << 16) | ((b2 as u32) << 8) | (b3 as u32)
}

/// The 16-byte envelope header: magic marker `BMK1`, the identifiers of
/// PBKDF2-HMAC-SHA256 and ChaCha20-Poly1305, the iteration count, the salt
/// and nonce lengths, and the plaintext length.
pub open spec fn header_spec(iterations: u32, salt_len: u8, pt_len: u32) -> Seq<u8> {
    seq![66u8, 77u8, 75u8, 49u8, 1u8, 1u8] + u32_be_spec(iterations) + seq![salt_len, 12u8]
        + u32_be_spec(pt_len)
}

/// A whole envelope for the given plaintext, password, iteration count,
/// salt and nonce.
pub open spec fn envelope_spec(
    pt: Seq<u8>,
    password: Seq<u8>,
    iterations: u32,
    salt: Seq<u8>,
    nonce: Seq<u8>,
) -> Seq<u8> {
    let header = header_spec(iterations, (salt.len() as u8), (pt.len() as u32));
    header + salt + nonce + chacha20poly1305_seal(
        pbkdf2_sha256_of(password, salt, iterations),
        nonce,
        header,
        pt,
    )
}


proof fn lemma_u32_be_roundtrip(x: u32)
    by (bit_vector)
    ensures
        (((((x >> 24u32) & 0xFF) as u8) as u32) * 0x1000000 + ((((x >> 16u32) & 0xFF) as u8) as u32)
            * 0x10000 + ((((x >> 8u32) & 0xFF) as u8) as u32) * 0x100 + (((x & 0xFF) as u8)
            as u32)) as u32 == x,
{
}

/// A genuine envelope parses field by field: the header checks of the
/// import path all pass, and the salt, nonce and ciphertext sections stand
/// exactly where the import path reads them.  Together with the import
/// contract this makes the password round trip provable: importing an
/// exported envelope with its password yields exactly the protected key.
pub proof fn lemma_envelope_parses(
    pt: Seq<u8>,
    password: Seq<u8>,
    iterations: u32,
    salt: Seq<u8>,
    nonce: Seq<u8>,
)
    requires
        1 <= salt.len() <= 255,
        nonce.len() == 12,
        pt.len() <= 0xFFFF_FFFF,
        iterations >= 1,
        chacha20poly1305_seal(
            pbkdf2_sha256_of(password, salt, iterations),
            nonce,
            header_spec(iterations, (salt.len() as u8), (pt.len() as u32)),
            pt,
        ).len() == pt.len() + 16,
    ensures
        ({
            let p = envelope_spec(pt, password, iterations, salt, nonce);
            let header = header_spec(iterations, (salt.len() as u8), (pt.len() as u32));
            &&& p.len() == 16 + salt.len() + 12 + pt.len() + 16
            &&& p[0] == 66 && p[1] == 77 && p[2] == 75 && p[3] == 49
            &&& p[4] == 1 && p[5] == 1
            &&& p[10] == salt.len() as u8 && p[11] == 12
            &&& u32_from_be_spec(p[6], p[7], p[8], p[9]) == iterations
            &&& u32_from_be_spec(p[12], p[13], p[14], p[15]) == pt.len()
            &&& p.take(16) == header
            &&& p.subrange(16, 16 + (p[10] as int)) == salt
            &&& p.subrange(16 + (p[10] as int), 16 + (p[10] as int) + 12) == nonce
            &&& p.subrange(
                16 + (p[10] as int) + 12,
                16 + (p[10] as int) + 12 + (u32_from_be_spec(p[12], p[13], p[14], p[15]) as int)
                    + 16,
            ) == chacha20poly1305_seal(
                pbkdf2_sha256_of(password, salt, iterations),
                nonce,
                header,
                pt,
            )
        }),
{
    let header = header_spec(iterations, (salt.len() as u8), (pt.len() as u32));
    let sealed = chacha20poly1305_seal(
        pbkdf2_sha256_of(password, salt, iterations),
        nonce,
        header,
        pt,
    );
    let p = envelope_spec(pt, password, iterations, salt, nonce);
    assert(header.len() == 16);
    assert(p.len() == 16 + salt.len() + 12 + sealed.len());
    assert(forall|i: int| 0 <= i < 16 ==> #[trigger] p[i] == header[i]);
    lemma_u32_be_roundtrip(iterations);
    lemma_u32_be_roundtrip(pt.len() as u32);
    assert(u32_from_be_spec(p[6], p[7], p[8], p[9]) == iterations);
    assert(u32_from_be_spec(p[12], p[13], p[14], p[15]) == (pt.len() as u32));
    assert(p.take(16) =~= header);
    assert(p[10] as int == salt.len());
    assert(p.subrange(16, 16 + salt.len() as int) =~= salt);
    assert(p.subrange(16 + salt.len() as int, 16 + salt.len() as int + 12) =~= nonce);
    assert(p.subrange(16 + salt.len() as int + 12, p.len() as int) =~= sealed);
}

/// Seal `plaintext_key` under `password` into an envelope.  The iteration
/// count defaults when absent; a zero count or an empty salt is rejected.
/// Success also needs the system RNG and the AEAD seal to go through; a
/// successful envelope has exactly the documented layout, with a fresh
/// salt and nonce standing at their places inside it.
pub fn export_key_password_protected(
    plaintext_key: &[u8],
    password: &[u8],
    iterations: Option<u32>,
    salt_len: usize,
) -> (r: Result<Vec<u8>, &'static str>)
    requires
        salt_len <= 255,
        plaintext_key@.len() <= 0xFFFF_FFFF,
    ensures
        salt_len == 0 ==> (r matches Err(e) && e@ == "salt_len must be > 0"@),
        salt_len > 0 && iterations == Some(0u32) ==> (r matches Err(e) && e@
            == "iterations must be > 0"@),
        salt_len > 0 && iterations != Some(0u32) ==> (r matches Err(e) ==> e@ == "rng salt"@ || e@
            == "rng nonce"@ || e@ == "aead seal"@),
        r matches Ok(v) ==> ({
            let iter = match iterations {
                Some(i) => i,
                None => DEFAULT_PBKDF2_ITERATIONS,
            };
            let salt = v@.subrange(16, 16 + salt_len);
            let nonce = v@.subrange(16 + salt_len, 16 + salt_len + 12);
            &&& iter >= 1
            &&& v@.len() == 16 + salt_len + 12 + plaintext_key@.len() + 16
            &&& v@ == envelope_spec(plaintext_key@, password@, iter, salt, nonce)
        }),
{
    if salt_len == 0 {
        return Err("salt_len must be > 0");
    }
    let iter: u32 = match iterations {
        Some(i) => {
            if i == 0 {
                return Err("iterations must be > 0");
            }
            i
        },
        None => DEFAULT_PBKDF2_ITERATIONS,
    };
    let salt = match random_bytes(salt_len) {
        Some(s) => s,
        None => {
            return Err("rng salt");
        },
    };
    let nonce = match random_bytes(12) {
        Some(n) => n,
        None => {
            return Err("rng nonce");
        },
    };
    let aead_key = derive_aead_key_pbkdf2(password, salt.as_slice(), iter);
    let mut header: Vec<u8> = Vec::new();
    header.push(66);
    header.push(77);
    header.push(75);
    header.push(49);
    header.push(1);
    header.push(1);
    let iter_be = u32_be(iter);
    push_all(&mut header, iter_be.as_slice());
    header.push(salt_len as u8);
    header.push(12);
    let pt_be = u32_be(plaintext_key.len() as u32);
    push_all(&mut header, pt_be.as_slice());
    proof {
        assert(header@ =~= header_spec(iter, (salt_len as u8), (plaintext_key@.len() as u32)));
    }
    let sealed = match aead_seal(
        aead_key.as_slice(),
        nonce.as_slice(),
        header.as_slice(),
        plaintext_key,
    ) {
        Some(c) => c,
        None => {
            return Err("aead seal");
        },
    };
    let mut out: Vec<u8> = Vec::new();
    push_all(&mut out, header.as_slice());
    push_all(&mut out, salt.as_slice());
    push_all(&mut out, nonce.as_slice());
    push_all(&mut out, sealed.as_slice());
    proof {
        assert(out@.subrange(16, 16 + salt_len as int) =~= salt@);
        assert(out@.subrange(16 + salt_len as int, 16 + salt_len as int + 12) =~= nonce@);
        assert(out@ =~= envelope_spec(plaintext_key@, password@, iter, salt@, nonce@));
    }
    Ok(out)
}

/// Open an envelope with `password` and return the key it protects.
///
/// Every malformed shape is rejected before any cryptography: a short or
/// truncated payload, a wrong magic marker, unknown algorithm identifiers,
/// a wrong nonce length, a zero iteration count.  A payload whose
/// ciphertext section was sealed under the password and the header then
/// opens; any other fails authentication and yields no plaintext at all.
pub fn import_key_password_protected(payload: &[u8], password: &[u8]) -> (r: Result<
    Vec<u8>,
    &'static str,
>)
    ensures
        ({
            let p = payload@;
            if p.len() < 16 {
                r matches Err(e) && e@ == "payload too short"@
            } else if !(p[0] == 66 && p[1] == 77 && p[2] == 75 && p[3] == 49) {
                r matches Err(e) && e@ == "bad magic"@
            } else if p[4] != 1 {
                r matches Err(e) && e@ == "unsupported kdf"@
            } else if p[5] != 1 {
                r matches Err(e) && e@ == "unsupported aead"@
            } else if p[11] != 12 {
                r matches Err(e) && e@ == "bad nonce_len"@
            } else if p.len() < 16 + (p[10] as int) + 12 {
                r matches Err(e) && e@ == "payload truncated"@
            } else if p.len() < 16 + (p[10] as int) + 12 + (u32_from_be_spec(
                p[12],
                p[13],
                p[14],
                p[15],
            ) as int) + 16 {
                r matches Err(e) && e@ == "ciphertext truncated"@
            } else if u32_from_be_spec(p[6], p[7], p[8], p[9]) == 0 {
                r matches Err(e) && e@ == "iterations == 0"@
            } else {
                let iter = u32_from_be_spec(p[6], p[7], p[8], p[9]);
                let salt = p.subrange(16, 16 + (p[10] as int));
                let nonce = p.subrange(16 + (p[10] as int), 16 + (p[10] as int) + 12);
                let pos_ct = 16 + (p[10] as int) + 12;
                let ct = p.subrange(
                    pos_ct,
                    pos_ct + (u32_from_be_spec(p[12], p[13], p[14], p[15]) as int) + 16,
                );
                let key = pbkdf2_sha256_of(password@, salt, iter);
                &&& (r matches Ok(pt) ==> ct == chacha20poly1305_seal(key, nonce, p.take(16), pt@))
                &&& (r matches Ok(ptr) ==> forall|pt: Seq<u8>|
                    ct == chacha20poly1305_seal(key, nonce, p.take(16), pt) ==> pt == ptr@)
                &&& (r matches Err(e) ==> e@ == "aead open"@)
                &&& (forall|pt: Seq<u8>|
                    ct == chacha20poly1305_seal(key, nonce, p.take(16), pt) ==> r is Ok)
            }
        }),
{
    if payload.len() < 16 {
        return Err("payload too short");
    }
    if !(payload[0] == 66 && payload[1] == 77 && payload[2] == 75 && payload[3] == 49) {
        return Err("bad magic");
    }
    if payload[4] != 1 {
        return Err("unsupported kdf");
    }
    if payload[5] != 1 {
        return Err("unsupported aead");
    }
    if payload[11] != 12 {
        return Err("bad nonce_len");
    }
    let salt_len = payload[10] as usize;
    let pos_nonce = 16 + salt_len;
    let pos_ct = pos_nonce + 12;
    if payload.len() < pos_ct {
        return Err("payload truncated");
    }
    let pt_len = read_u32_be(vstd::slice::slice_subrange(payload, 12, 16)) as usize;
    let avail = payload.len() - pos_ct;
    if avail < pt_len || avail - pt_len < 16 {
        return Err("ciphertext truncated");
    }
    let iter = read_u32_be(vstd::slice::slice_subrange(payload, 6, 10));
    if iter == 0 {
        return Err("iterations == 0");
    }
    let salt = vstd::slice::slice_subrange(payload, 16, pos_nonce);
    let nonce = vstd::slice::slice_subrange(payload, pos_nonce, pos_ct);
    let ct = vstd::slice::slice_subrange(payload, pos_ct, pos_ct + pt_len + 16);
    let aead_key = derive_aead_key_pbkdf2(password, salt, iter);
    let header = vstd::slice::slice_subrange(payload, 0, 16);
    match aead_open(aead_key.as_slice(), nonce, header, ct) {
        Some(pt) => Ok(pt),
        None => Err("aead open"),
    }
}

} // verus!
