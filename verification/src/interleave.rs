//! Interleaving of text bytes with filler bytes.
//!
//! The bytes of the input text are laid out at even positions, with one
//! filler byte between each pair of neighbours and none after the last.
//! The fillers come from a deliberately non-cryptographic generator seeded
//! from the wall clock: their values carry no meaning and are discarded on
//! the way back.

use vstd::prelude::*;
use vstd::string::{StringExecFns, StringSliceAdditionalSpecFns};
use vstd::utf8::{valid_utf8, decode_utf8, encode_utf8};

use crate::utf8util::string_from_utf8;

verus! {

/// One step of the xorshift generator.
pub open spec fn xorshift_step(x: u64) -> u64 {
    let a = x ^ (x << 13u64);
    let b = a ^ (a >> 7u64);
    b ^ (b << 17u64)
}

/// The seed actually used: a zero seed is replaced so the generator never
/// sticks at zero.
pub open spec fn nonzero_seed(seed: u64) -> u64 {
    if seed == 0 {
        0x9E3779B97F4A7C15u64
    } else {
        seed
    }
}

/// The xorshift state after `k` steps from `seed`.
pub open spec fn xorshift_iter(seed: u64, k: nat) -> u64
    decreases k,
{
    if k == 0 {
        seed
    } else {
        xorshift_step(xorshift_iter(seed, (k - 1) as nat))
    }
}

/// Tiny non-cryptographic PRNG (64-bit xorshift), seeded from the wall
/// clock once per interleave call — or from a caller-supplied seed in the
/// seeded variant.
struct XorShift64 {
    state: u64,
}

impl XorShift64 {
    /// A zero seed is replaced so the generator never sticks at zero.
    fn new(seed: u64) -> (r: Self)
        ensures
            r.state == if seed == 0 {
                0x9E3779B97F4A7C15u64
            } else {
                seed
            },
    {
        Self {
            state: if seed == 0 {
                0x9E3779B97F4A7C15
            } else {
                seed
            },
        }
    }

    fn next_u64(&mut self) -> (r: u64)
        ensures
            r == xorshift_step(old(self).state),
            final(self).state == r,
    {
        let mut x = self.state;
        x = x ^ (x << 13);
        x = x ^ (x >> 7);
        x = x ^ (x << 17);
        self.state = x;
        x
    }

    fn next_u8(&mut self) -> (r: u8)
        ensures
            final(self).state == xorshift_step(old(self).state),
            r == (xorshift_step(old(self).state) & 0xFF) as u8,
    {
        (self.next_u64() & 0xFF) as u8
    }
}

/// Relies on `std::time::SystemTime::now`: the nanoseconds since the epoch
/// are read from the wall clock, so nothing is promised of the value.
#[verifier::external_body]
fn nanos_since_epoch() -> u128 {
    std::time::SystemTime::now().duration_since(std::time::UNIX_EPOCH).unwrap_or_default().as_nanos()
}

/// Fold the wall-clock nanoseconds into a 64-bit seed.
fn seed_from_time() -> u64 {
    let nanos = nanos_since_epoch();
    (nanos as u64) ^ ((nanos >> 64) as u64)
}

/// The bytes at even positions: the original bytes of an interleaved
/// sequence.
pub open spec fn evens(s: Seq<u8>) -> Seq<u8> {
    Seq::new((s.len() + 1) / 2, |i: int| s[2 * i])
}

/// Interleave the UTF-8 bytes of `input` with fillers drawn from the
/// xorshift generator at the given seed: the deliberately pluggable filler
/// source — tests pass a fixed seed, `interleave_with_random_bytes` passes
/// the wall clock.  The text bytes stand at even positions; the filler
/// after the `x`-th byte is the low byte of the generator's `x+1`-th
/// state.
pub fn interleave_with_random_bytes_seeded(input: &str, seed: u64) -> (r: Vec<u8>)
    ensures
        input.spec_bytes().len() == 0 ==> r@.len() == 0,
        input.spec_bytes().len() > 0 ==> r@.len() == 2 * input.spec_bytes().len() - 1,
        evens(r@) == input.spec_bytes(),
        forall|x: int|
            0 <= x && x + 1 < input.spec_bytes().len() ==> #[trigger] r@[2 * x + 1] == (
            xorshift_iter(nonzero_seed(seed), (x + 1) as nat) & 0xFF) as u8,
{
    let bytes: &[u8] = input.as_bytes();
    let n = bytes.len();
    if n == 0 {
        proof {
            assert(evens(Seq::<u8>::empty()) =~= input.spec_bytes());
        }
        return Vec::new();
    }
    let ghost s0 = nonzero_seed(seed);
    let mut rng = XorShift64::new(seed);
    let mut out: Vec<u8> = Vec::new();
    let mut i: usize = 0;
    while i < n
        invariant
            0 < n == bytes@.len(),
            0 <= i <= n,
            bytes@ == input.spec_bytes(),
            s0 == nonzero_seed(seed),
            rng.state == xorshift_iter(
                s0,
                if i < n {
                    i as nat
                } else {
                    (n - 1) as nat
                },
            ),
            out@.len() == if i < n {
                2 * (i as int)
            } else {
                2 * (n as int) - 1
            },
            forall|x: int| 0 <= x < i ==> out@[2 * x] == bytes@[x],
            forall|x: int|
                0 <= x && x + 1 < n && x < i ==> #[trigger] out@[2 * x + 1] == (xorshift_iter(
                    s0,
                    (x + 1) as nat,
                ) & 0xFF) as u8,
        decreases n - i,
    {
        out.push(bytes[i]);
        if i + 1 < n {
            out.push(rng.next_u8());
        }
        i += 1;
    }
    proof {
        assert(evens(out@) =~= input.spec_bytes());
    }
    out
}

/// Interleave the UTF-8 bytes of `input` with one filler byte between
/// each pair of neighbouring bytes and no filler after the last: the
/// output holds the text bytes at even positions and has length
/// `2n - 1` for `n > 0` input bytes, `0` for empty input.  The fillers
/// come from the wall-clock-seeded generator and carry no meaning.
pub fn interleave_with_random_bytes(input: &str) -> (r: Vec<u8>)
    ensures
        input.spec_bytes().len() == 0 ==> r@.len() == 0,
        input.spec_bytes().len() > 0 ==> r@.len() == 2 * input.spec_bytes().len() - 1,
        evens(r@) == input.spec_bytes(),
{
    interleave_with_random_bytes_seeded(input, seed_from_time())
}

/// The ASCII hex text of a byte sequence, two uppercase digits per byte.
pub open spec fn hex_of(bytes: Seq<u8>) -> Seq<u8> {
    Seq::new(
        2 * bytes.len(),
        |i: int|
            if i % 2 == 0 {
                hex_digit((bytes[i / 2] >> 4u8) as u8)
            } else {
                hex_digit((bytes[i / 2] & 0x0Fu8) as u8)
            },
    )
}

/// The ASCII code of one hex digit value (uppercase).
pub open spec fn hex_digit(v: u8) -> u8
    recommends
        v < 16,
{
    if v < 10 {
        (48 + v) as u8
    } else {
        (55 + v) as u8
    }
}

/// A byte of ASCII hex: `0-9`, `a-f` or `A-F`.
pub open spec fn is_hex_byte(b: u8) -> bool {
    (48 <= b <= 57) || (97 <= b <= 102) || (65 <= b <= 70)
}

/// The value of one byte of ASCII hex.
pub open spec fn hex_byte_val(b: u8) -> u8
    recommends
        is_hex_byte(b),
{
    if 48 <= b <= 57 {
        (b - 48) as u8
    } else if 97 <= b <= 102 {
        (b - 87) as u8
    } else {
        (b - 55) as u8
    }
}

/// The first index holding something other than a hex digit (meaningful
/// when one exists).
pub open spec fn first_non_hex(s: Seq<u8>) -> int
    decreases s.len(),
{
    if s.len() == 0 {
        0
    } else if !is_hex_byte(s[0]) {
        0
    } else {
        1 + first_non_hex(s.drop_first())
    }
}

proof fn lemma_first_non_hex(s: Seq<u8>, i: int)
    requires
        0 <= i < s.len(),
        !is_hex_byte(s[i]),
        forall|x: int| 0 <= x < i ==> is_hex_byte(s[x]),
    ensures
        first_non_hex(s) == i,
    decreases i,
{
    if i > 0 {
        lemma_first_non_hex(s.drop_first(), i - 1);
    }
}

/// Whether ASCII hex text is well formed: even length, hex digits only.
pub open spec fn hex_decode_ok(s: Seq<u8>) -> bool {
    s.len() % 2 == 0 && forall|i: int| 0 <= i < s.len() ==> is_hex_byte(#[trigger] s[i])
}

/// The bytes that well-formed ASCII hex text encodes.
pub open spec fn hex_decode(s: Seq<u8>) -> Seq<u8> {
    Seq::new(
        s.len() / 2,
        |i: int| (hex_byte_val(s[2 * i]) * 16 + hex_byte_val(s[2 * i + 1])) as u8,
    )
}

/// Hex encoding decodes back to the original bytes.
proof fn lemma_hex_roundtrip(bytes: Seq<u8>)
    ensures
        hex_decode_ok(hex_of(bytes)),
        hex_decode(hex_of(bytes)) == bytes,
{
    let h = hex_of(bytes);
    assert forall|i: int| 0 <= i < h.len() implies is_hex_byte(#[trigger] h[i]) by {
        let b = bytes[i / 2];
        assert((b >> 4u8) < 16 && (b & 0x0Fu8) < 16) by (bit_vector);
    }
    assert forall|i: int| 0 <= i < bytes.len() implies hex_decode(h)[i] == bytes[i] by {
        let b = bytes[i];
        assert(h[2 * i] == hex_digit((b >> 4u8) as u8));
        assert((2 * i + 1) % 2 == 1 && (2 * i + 1) / 2 == i) by {
            vstd::arithmetic::div_mod::lemma_fundamental_div_mod_converse(2 * i + 1, 2, i, 1);
        }
        assert(h[2 * i + 1] == hex_digit((b & 0x0Fu8) as u8));
        assert((b >> 4u8) < 16 && (b & 0x0Fu8) < 16) by (bit_vector);
        assert(((b >> 4u8) * 16 + (b & 0x0Fu8)) == b) by (bit_vector);
    }
    assert(hex_decode(h) =~= bytes);
}

/// Hex-encode bytes as uppercase ASCII text.
fn to_hex(bytes: &[u8]) -> (r: String)
    ensures
        encode_utf8(r@) == hex_of(bytes@),
{
    let n = bytes.len();
    let mut outv: Vec<u8> = Vec::new();
    let mut i: usize = 0;
    while i < n
        invariant
            0 <= i <= n,
            n == bytes@.len(),
            outv@.len() == 2 * i,
            forall|x: int|
                0 <= x < outv@.len() ==> #[trigger] outv@[x] == hex_of(bytes@)[x] && outv@[x] < 0x80,
        decreases n - i,
    {
        let b = bytes[i];
        proof {
            assert((b >> 4u8) < 16 && (b & 0x0Fu8) < 16) by (bit_vector);
            assert((2 * i as int) % 2 == 0 && (2 * i as int) / 2 == i as int && (2 * i as int + 1)
                % 2 == 1 && (2 * i as int + 1) / 2 == i as int) by {
                vstd::arithmetic::div_mod::lemma_fundamental_div_mod_converse(
                    2 * i as int,
                    2,
                    i as int,
                    0,
                );
                vstd::arithmetic::div_mod::lemma_fundamental_div_mod_converse(
                    2 * i as int + 1,
                    2,
                    i as int,
                    1,
                );
            }
        }
        let hi = b >> 4;
        let lo = b & 0x0F;
        outv.push(if hi < 10 {
            48 + hi
        } else {
            55 + hi
        });
        outv.push(if lo < 10 {
            48 + lo
        } else {
            55 + lo
        });
        i += 1;
    }
    proof {
        assert(outv@ =~= hex_of(bytes@));
        assert(vstd::utf8::partial_valid_utf8(outv@, 0)) by {
            assert(outv@.subrange(0, 0) =~= Seq::<u8>::empty());
        }
        vstd::utf8::partial_valid_utf8_extend_ascii_block(outv@, 0, outv@.len() as int);
        assert(outv@.subrange(0, outv@.len() as int) =~= outv@);
    }
    let ghost encoded = outv@;
    let r = string_from_utf8(outv);
    proof {
        vstd::utf8::decode_utf8_encode_utf8(encoded);
    }
    match r {
        Ok(t) => t,
        Err(_) => {
            proof {
                assert(false);
            }
            String::new()
        },
    }
}

/// Decode uppercase or lowercase ASCII hex text into bytes.
fn from_hex(s: &str) -> (r: Result<Vec<u8>, String>)
    ensures
        r is Ok <==> hex_decode_ok(s.spec_bytes()),
        r matches Ok(v) ==> v@ == hex_decode(s.spec_bytes()),
        s.spec_bytes().len() % 2 != 0 ==> (r matches Err(e) && e@
            == "hex string length must be even"@),
        s.spec_bytes().len() % 2 == 0 && !hex_decode_ok(s.spec_bytes()) ==> (r matches Err(e) && e@
            == "invalid hex character: "@.push(
            s.spec_bytes()[first_non_hex(s.spec_bytes())] as char,
        )),
{
    let bytes: &[u8] = s.as_bytes();
    let n = bytes.len();
    if n % 2 != 0 {
        return Err(String::from_str("hex string length must be even"));
    }
    let pairs = n / 2;
    let mut out: Vec<u8> = Vec::new();
    let mut k: usize = 0;
    while k < pairs
        invariant
            0 <= k <= pairs,
            pairs == n / 2,
            n % 2 == 0,
            n == bytes@.len(),
            bytes@ == s.spec_bytes(),
            out@.len() == k,
            forall|x: int| 0 <= x < 2 * k ==> is_hex_byte(#[trigger] bytes@[x]),
            forall|x: int|
                0 <= x < k ==> #[trigger] out@[x] == (hex_byte_val(bytes@[2 * x]) * 16
                    + hex_byte_val(bytes@[2 * x + 1])) as u8,
        decreases pairs - k,
    {
        proof {
            vstd::arithmetic::div_mod::lemma_fundamental_div_mod(n as int, 2);
        }
        let c0 = bytes[2 * k];
        let c1 = bytes[2 * k + 1];
        let v0 = if 48 <= c0 && c0 <= 57 {
            c0 - 48
        } else if 97 <= c0 && c0 <= 102 {
            c0 - 87
        } else if 65 <= c0 && c0 <= 70 {
            c0 - 55
        } else {
            proof {
                assert(!is_hex_byte(bytes@[2 * k as int]));
                lemma_first_non_hex(bytes@, 2 * k as int);
            }
            let mut msg = String::from_str("invalid hex character: ");
            crate::utf8util::push_char(&mut msg, c0 as char);
            return Err(msg);
        };
        let v1 = if 48 <= c1 && c1 <= 57 {
            c1 - 48
        } else if 97 <= c1 && c1 <= 102 {
            c1 - 87
        } else if 65 <= c1 && c1 <= 70 {
            c1 - 55
        } else {
            proof {
                assert(!is_hex_byte(bytes@[2 * k as int + 1]));
                lemma_first_non_hex(bytes@, 2 * k as int + 1);
            }
            let mut msg = String::from_str("invalid hex character: ");
            crate::utf8util::push_char(&mut msg, c1 as char);
            return Err(msg);
        };
        out.push(v0 * 16 + v1);
        k += 1;
    }
    proof {
        vstd::arithmetic::div_mod::lemma_fundamental_div_mod(n as int, 2);
        assert(out@ =~= hex_decode(bytes@));
    }
    Ok(out)
}

/// Interleave and return the result as printable hex text.
pub fn interleave_with_random_bytes_hex(input: &str) -> (r: String)
    ensures
        hex_decode_ok(encode_utf8(r@)),
        input.spec_bytes().len() == 0 ==> hex_decode(encode_utf8(r@)).len() == 0,
        input.spec_bytes().len() > 0 ==> hex_decode(encode_utf8(r@)).len() == 2
            * input.spec_bytes().len() - 1,
        evens(hex_decode(encode_utf8(r@))) == input.spec_bytes(),
{
    let bin = interleave_with_random_bytes(input);
    let r = to_hex(bin.as_slice());
    proof {
        lemma_hex_roundtrip(bin@);
    }
    r
}

/// Recover the original text of an interleaved sequence: keep the bytes at
/// even positions and decode them as UTF-8.
pub fn deinterleave_original_bytes(interleaved: &[u8]) -> (r: Result<String, String>)
    ensures
        r is Ok <==> valid_utf8(evens(interleaved@)),
        r matches Ok(s) ==> s@ == decode_utf8(evens(interleaved@)),
        r matches Err(e) ==> e@ == "not valid UTF-8: "@ + crate::utf8util::utf8_error_text(
            evens(interleaved@),
        ),
{
    let n = interleaved.len();
    let mut orig: Vec<u8> = Vec::new();
    let m = n / 2 + n % 2;
    proof {
        vstd::arithmetic::div_mod::lemma_fundamental_div_mod(n as int, 2);
        if n % 2 == 0 {
            vstd::arithmetic::div_mod::lemma_fundamental_div_mod_converse(
                n as int + 1,
                2,
                n as int / 2,
                1,
            );
        } else {
            vstd::arithmetic::div_mod::lemma_fundamental_div_mod_converse(
                n as int + 1,
                2,
                n as int / 2 + 1,
                0,
            );
        }
        assert(m as int == (n as int + 1) / 2);
    }
    let mut k: usize = 0;
    while k < m
        invariant
            0 <= k <= m,
            n == interleaved@.len(),
            m as int == (n as int + 1) / 2,
            2 * (m as int) <= n as int + 1,
            orig@.len() == k,
            forall|x: int| 0 <= x < k ==> #[trigger] orig@[x] == interleaved@[2 * x],
        decreases m - k,
    {
        orig.push(interleaved[2 * k]);
        k += 1;
    }
    proof {
        assert(orig@ =~= evens(interleaved@));
    }
    match string_from_utf8(orig) {
        Ok(s) => Ok(s),
        Err(e) => {
            let mut msg = String::new();
            msg.append("not valid UTF-8: ");
            msg.append(e.as_str());
            Err(msg)
        },
    }
}

/// Recover the original text from hex-encoded interleaved bytes.
pub fn deinterleave_original_bytes_from_hex(hex: &str) -> (r: Result<String, String>)
    ensures
        r is Ok <==> hex_decode_ok(hex.spec_bytes()) && valid_utf8(
            evens(hex_decode(hex.spec_bytes())),
        ),
        r matches Ok(s) ==> s@ == decode_utf8(evens(hex_decode(hex.spec_bytes()))),
{
    let bin = match from_hex(hex) {
        Ok(b) => b,
        Err(e) => {
            return Err(e);
        },
    };
    deinterleave_original_bytes(bin.as_slice())
}

} // verus!
