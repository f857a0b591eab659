//! Fixed-capacity bit buffer with cyclic rotation over a partial-length
//! bit ring.
//!
//! Bits are numbered LSB-first inside each byte and byte-major across the
//! buffer: bit `i` lives at offset `i % 8` of byte `i / 8`.  Only the first
//! `bit_len` bits are live; everything above is kept zero (tail masking).

use vstd::prelude::*;
use vstd::arithmetic::div_mod::{
    lemma_fundamental_div_mod, lemma_mod_division_less_than_divisor, lemma_div_pos_is_pos,
    lemma_fundamental_div_mod_converse, lemma_small_mod, lemma_mod_multiples_vanish,
    lemma_add_mod_noop, lemma_add_mod_noop_right, lemma_sub_mod_noop, lemma_sub_mod_noop_right,
};

verus! {

broadcast use vstd::array::group_array_axioms;

/// True when bit `i` of the byte sequence is set (LSB-first numbering).
pub open spec fn bit_of(bytes: Seq<u8>, i: int) -> bool
    recommends
        0 <= i < bytes.len() * 8,
{
    (bytes[i / 8] >> ((i % 8) as u8)) & 1 == 1
}

/// The first `bit_len` bits of a byte sequence, as a boolean sequence.
pub open spec fn bits_of(bytes: Seq<u8>, bit_len: nat) -> Seq<bool> {
    Seq::new(bit_len, |i: int| bit_of(bytes, i))
}

/// Every bit at position `bit_len` or above is zero: the bytes past the
/// boundary are all zero, and so are the high bits of the boundary byte.
pub open spec fn tail_masked(bytes: Seq<u8>, bit_len: nat) -> bool {
    forall|j: int| bit_len <= j < bytes.len() * 8 ==> !bit_of(bytes, j)
}

/// Number of bytes that hold live bits.
pub open spec fn spec_byte_count(bit_len: nat) -> nat {
    bit_len / 8 + if bit_len % 8 == 0 {
        0nat
    } else {
        1nat
    }
}

/// Cyclic left rotation of a bit sequence: the bit at position `i` moves to
/// position `(i + k) % len`, so position `j` afterwards holds the bit that
/// was at `(j - k) % len`.
pub open spec fn rotl_spec(s: Seq<bool>, k: int) -> Seq<bool> {
    if s.len() == 0 {
        s
    } else {
        Seq::new(s.len(), |j: int| s[(j - k) % (s.len() as int)])
    }
}

/// Cyclic right rotation of a bit sequence: position `j` afterwards holds
/// the bit that was at `(j + k) % len`.
pub open spec fn rotr_spec(s: Seq<bool>, k: int) -> Seq<bool> {
    if s.len() == 0 {
        s
    } else {
        Seq::new(s.len(), |j: int| s[(j + k) % (s.len() as int)])
    }
}

/// Errors of the fallible bit-buffer operations.
#[derive(Clone, Copy, Debug, PartialEq, Eq)]
pub enum BitArrayError {
    /// The requested bit length exceeds the buffer's storage.
    CapacityExceeded,
    /// A bit index at or above the live bit length was used.
    IndexOutOfRange,
}

proof fn lemma_u8_bit01(b: u8, j: u8)
    by (bit_vector)
    requires
        j < 8,
    ensures
        (b >> j) & 1 == 0 || (b >> j) & 1 == 1,
{
}

proof fn lemma_u8_zero_bit(j: u8)
    by (bit_vector)
    requires
        j < 8,
    ensures
        (0u8 >> j) & 1 == 0,
{
}

proof fn lemma_u8_or_bit(b: u8, off: u8, j: u8)
    by (bit_vector)
    requires
        off < 8,
        j < 8,
    ensures
        j == off ==> ((b | (1u8 << off)) >> j) & 1 == 1,
        j != off ==> ((b | (1u8 << off)) >> j) & 1 == (b >> j) & 1,
{
}

proof fn lemma_u8_clear_bit(b: u8, off: u8, j: u8)
    by (bit_vector)
    requires
        off < 8,
        j < 8,
    ensures
        j == off ==> ((b & !(1u8 << off)) >> j) & 1 == 0,
        j != off ==> ((b & !(1u8 << off)) >> j) & 1 == (b >> j) & 1,
{
}

proof fn lemma_u8_mask_bit(b: u8, rem: u8, j: u8)
    by (bit_vector)
    requires
        0 < rem < 8,
        j < 8,
    ensures
        j < rem ==> ((b & (((1u8 << rem) - 1) as u8)) >> j) & 1 == (b >> j) & 1,
        j >= rem ==> ((b & (((1u8 << rem) - 1) as u8)) >> j) & 1 == 0,
{
}

proof fn lemma_u8_eq_from_bits(x: u8, y: u8)
    by (bit_vector)
    requires
        (x >> 0) & 1 == (y >> 0) & 1,
        (x >> 1) & 1 == (y >> 1) & 1,
        (x >> 2) & 1 == (y >> 2) & 1,
        (x >> 3) & 1 == (y >> 3) & 1,
        (x >> 4) & 1 == (y >> 4) & 1,
        (x >> 5) & 1 == (y >> 5) & 1,
        (x >> 6) & 1 == (y >> 6) & 1,
        (x >> 7) & 1 == (y >> 7) & 1,
    ensures
        x == y,
{
}

/// Bit `j` of a byte sequence splits into the byte index `j / 8` and the
/// offset `j % 8` inside it.
proof fn lemma_bit_index(j: int)
    requires
        0 <= j,
    ensures
        0 <= j % 8 < 8,
        j == 8 * (j / 8) + j % 8,
        0 <= j / 8,
{
    lemma_fundamental_div_mod(j, 8);
    lemma_mod_division_less_than_divisor(j, 8);
    lemma_div_pos_is_pos(j, 8);
}

/// Two byte sequences of equal length, both tail-masked at `bit_len`, are
/// equal whenever their live bits agree.
pub proof fn lemma_bytes_from_bits(a: Seq<u8>, b: Seq<u8>, bit_len: nat)
    requires
        a.len() == b.len(),
        tail_masked(a, bit_len),
        tail_masked(b, bit_len),
        bits_of(a, bit_len) == bits_of(b, bit_len),
    ensures
        a == b,
{
    assert forall|bi: int| 0 <= bi < a.len() implies a[bi] == b[bi] by {
        assert forall|jo: u8| jo < 8 implies #[trigger] ((a[bi] >> jo) & 1) == ((b[bi] >> jo)
            & 1) by {
            let j = 8 * bi + (jo as int);
            lemma_fundamental_div_mod(j, 8);
            assert(j / 8 == bi && j % 8 == jo as int) by {
                vstd::arithmetic::div_mod::lemma_fundamental_div_mod_converse(j, 8, bi, jo as int);
            }
            if j < bit_len {
                assert(bits_of(a, bit_len)[j] == bits_of(b, bit_len)[j]);
                assert(bits_of(a, bit_len)[j] == bit_of(a, j));
                assert(bits_of(b, bit_len)[j] == bit_of(b, j));
                assert(bit_of(a, j) == bit_of(b, j));
                lemma_u8_bit01(a[bi], jo);
                lemma_u8_bit01(b[bi], jo);
            } else {
                assert(!bit_of(a, j));
                assert(!bit_of(b, j));
                lemma_u8_bit01(a[bi], jo);
                lemma_u8_bit01(b[bi], jo);
            }
        }
        lemma_u8_eq_from_bits(a[bi], b[bi]);
    }
    assert(a =~= b);
}


/// A byte sequence whose bytes from index `used` on are all zero is
/// tail-masked at the whole-byte boundary `used * 8`.
pub proof fn lemma_whole_byte_tail_masked(bytes: Seq<u8>, used: int)
    requires
        0 <= used <= bytes.len(),
        forall|b: int| used <= b < bytes.len() ==> bytes[b] == 0u8,
    ensures
        tail_masked(bytes, (used * 8) as nat),
{
    assert forall|j: int| used * 8 <= j < bytes.len() * 8 implies !bit_of(bytes, j) by {
        lemma_bit_index(j);
        assert(j / 8 >= used) by {
            assert(8 * (j / 8) + 8 > j);
        }
        assert(bytes[j / 8] == 0u8);
        lemma_u8_zero_bit((j % 8) as u8);
    }
}



proof fn lemma_u8_high_bits_zero(x: u8, rem: u8)
    by (bit_vector)
    requires
        0 < rem < 8,
        rem <= 1 ==> (x >> 1) & 1 == 0,
        rem <= 2 ==> (x >> 2) & 1 == 0,
        rem <= 3 ==> (x >> 3) & 1 == 0,
        rem <= 4 ==> (x >> 4) & 1 == 0,
        rem <= 5 ==> (x >> 5) & 1 == 0,
        rem <= 6 ==> (x >> 6) & 1 == 0,
        (x >> 7) & 1 == 0,
    ensures
        x >> rem == 0,
{
}

/// The byte-level reading of tail masking: after any sequence of
/// operations that keeps a buffer well formed, every byte at index
/// `ceil(bit_len / 8)` or above is zero, and in the boundary byte every
/// bit at position `bit_len % 8` or above is zero.
pub proof fn lemma_tail_bytes_zero(bytes: Seq<u8>, bit_len: nat)
    requires
        bit_len <= bytes.len() * 8,
        tail_masked(bytes, bit_len),
    ensures
        forall|b: int| spec_byte_count(bit_len) <= b < bytes.len() ==> bytes[b] == 0,
        bit_len % 8 != 0 ==> bytes[bit_len as int / 8] >> ((bit_len % 8) as u8) == 0,
{
    lemma_bit_index(bit_len as int);
    assert forall|b: int| spec_byte_count(bit_len) <= b < bytes.len() implies bytes[b] == 0 by {
        assert forall|jo: u8| jo < 8 implies #[trigger] ((bytes[b] >> jo) & 1) == ((0u8 >> jo)
            & 1) by {
            let j = 8 * b + (jo as int);
            lemma_fundamental_div_mod_converse(j, 8, b, jo as int);
            assert(!bit_of(bytes, j));
            lemma_u8_bit01(bytes[b], jo);
            lemma_u8_zero_bit(jo);
        }
        lemma_u8_eq_from_bits(bytes[b], 0);
    }
    if bit_len % 8 != 0 {
        let q = bit_len as int / 8;
        let rem = (bit_len % 8) as u8;
        assert forall|jo: u8| rem <= jo < 8 implies #[trigger] ((bytes[q] >> jo) & 1) == 0 by {
            let j = 8 * q + (jo as int);
            lemma_fundamental_div_mod_converse(j, 8, q, jo as int);
            assert(!bit_of(bytes, j));
            lemma_u8_bit01(bytes[q], jo);
        }
        lemma_u8_high_bits_zero(bytes[q], rem);
    }
}

/// The numeric contribution of bit `i`: one or zero.
pub open spec fn bit_val(bits: Seq<bool>, i: int) -> u8 {
    if 0 <= i < bits.len() && bits[i] {
        1u8
    } else {
        0u8
    }
}

/// The byte at index `b` of the storage that holds the given bits,
/// LSB-first, with zeros outside the live region.
pub open spec fn byte_of_bits(bits: Seq<bool>, b: int) -> u8 {
    (bit_val(bits, 8 * b) + 2 * bit_val(bits, 8 * b + 1) + 4 * bit_val(bits, 8 * b + 2) + 8
        * bit_val(bits, 8 * b + 3) + 16 * bit_val(bits, 8 * b + 4) + 32 * bit_val(bits, 8 * b + 5)
        + 64 * bit_val(bits, 8 * b + 6) + 128 * bit_val(bits, 8 * b + 7)) as u8
}

/// The `n` storage bytes that hold the given bits.
pub open spec fn bytes_of_bits(bits: Seq<bool>, n: nat) -> Seq<u8> {
    Seq::new(n, |b: int| byte_of_bits(bits, b))
}

proof fn lemma_u8_from_bit_vals(x: u8)
    by (bit_vector)
    ensures
        x == ((x >> 0) & 1) + 2 * ((x >> 1) & 1) + 4 * ((x >> 2) & 1) + 8 * ((x >> 3) & 1) + 16 * ((
        x >> 4) & 1) + 32 * ((x >> 5) & 1) + 64 * ((x >> 6) & 1) + 128 * ((x >> 7) & 1),
{
}

/// A tail-masked byte sequence is determined by its live bits: it equals
/// the storage that `bytes_of_bits` rebuilds from them.
pub proof fn lemma_wf_bytes_of_bits(bytes: Seq<u8>, bit_len: nat)
    requires
        bit_len <= bytes.len() * 8,
        tail_masked(bytes, bit_len),
    ensures
        bytes == bytes_of_bits(bits_of(bytes, bit_len), bytes.len() as nat),
{
    let bits = bits_of(bytes, bit_len);
    assert forall|b: int| 0 <= b < bytes.len() implies byte_of_bits(bits, b) == bytes[b] by {
        assert forall|k: u8| k < 8 implies bit_val(bits, 8 * b + k) == ((bytes[b] >> k) & 1) by {
            let j = 8 * b + (k as int);
            lemma_fundamental_div_mod_converse(j, 8, b, k as int);
            lemma_u8_bit01(bytes[b], k);
            if j < bit_len {
                assert(bits[j] == bit_of(bytes, j));
            } else {
                assert(!bit_of(bytes, j));
            }
        }
        assert(bit_val(bits, 8 * b) == ((bytes[b] >> 0) & 1));
        assert(bit_val(bits, 8 * b + 1) == ((bytes[b] >> 1) & 1));
        assert(bit_val(bits, 8 * b + 2) == ((bytes[b] >> 2) & 1));
        assert(bit_val(bits, 8 * b + 3) == ((bytes[b] >> 3) & 1));
        assert(bit_val(bits, 8 * b + 4) == ((bytes[b] >> 4) & 1));
        assert(bit_val(bits, 8 * b + 5) == ((bytes[b] >> 5) & 1));
        assert(bit_val(bits, 8 * b + 6) == ((bytes[b] >> 6) & 1));
        assert(bit_val(bits, 8 * b + 7) == ((bytes[b] >> 7) & 1));
        lemma_u8_from_bit_vals(bytes[b]);
    }
    assert(bytes =~= bytes_of_bits(bits, bytes.len() as nat));
}

/// Fixed-size bit array over `N` bytes, with effective `bit_len` bits in use.
/// Bits are indexed from `0..bit_len`; bit 0 is the LSB of byte 0.
#[derive(Clone, Copy, Debug)]
pub struct BitArray<const N: usize> {
    data: [u8; N],
    bit_len: usize,
}

impl<const N: usize> BitArray<N> {
    /// The raw storage bytes, as a sequence of length `N`.
    pub closed spec fn bytes(&self) -> Seq<u8> {
        self.data@
    }

    /// Number of live bits.
    pub closed spec fn len_bits(&self) -> nat {
        self.bit_len as nat
    }

    /// The live bits, LSB-first per byte.
    pub open spec fn bits(&self) -> Seq<bool> {
        bits_of(self.bytes(), self.len_bits())
    }

    /// Well-formedness: the live region fits the storage and the tail is
    /// masked to zero.
    pub open spec fn wf(&self) -> bool {
        &&& self.len_bits() <= (N as int) * 8
        &&& self.bytes().len() == N
        &&& tail_masked(self.bytes(), self.len_bits())
    }

    /// Create a new bit array from bytes and an effective bit length
    /// (at most `N * 8`).  Unused tail bits are masked to zero, whatever
    /// the caller passed there.
    pub fn new(data: [u8; N], bit_len: usize) -> (r: Self)
        requires
            bit_len <= (N as int) * 8,
        ensures
            r.wf(),
            r.len_bits() == bit_len,
            r.bits() == bits_of(data@, bit_len as nat),
    {
        let mut s = Self { data, bit_len };
        s.mask_tail();
        s
    }

    /// Fallible constructor: rejects a bit length beyond the storage with
    /// `CapacityExceeded` instead of demanding it up front.
    pub fn try_new(data: [u8; N], bit_len: usize) -> (r: Result<Self, BitArrayError>)
        ensures
            bit_len <= (N as int) * 8 <==> r is Ok,
            r matches Ok(b) ==> b.wf() && b.len_bits() == bit_len && b.bits() == bits_of(
                data@,
                bit_len as nat,
            ),
            bit_len > (N as int) * 8 ==> r == Err::<Self, BitArrayError>(
                BitArrayError::CapacityExceeded,
            ),
    {
        if bit_len / 8 > N || (bit_len / 8 == N && bit_len % 8 != 0) {
            proof {
                lemma_bit_index(bit_len as int);
            }
            Err(BitArrayError::CapacityExceeded)
        } else {
            proof {
                lemma_bit_index(bit_len as int);
            }
            Ok(Self::new(data, bit_len))
        }
    }

    /// Immutable access to the underlying bytes.
    pub fn as_bytes(&self) -> (r: &[u8; N])
        ensures
            r@ == self.bytes(),
    {
        &self.data
    }

    /// Mutable access to the underlying bytes.  Writing into the masked
    /// tail breaks well-formedness until `mask_tail` runs again.
    pub fn as_bytes_mut(&mut self) -> (r: &mut [u8; N])
        ensures
            (*r)@ == old(self).bytes(),
            final(self).bytes() == (*final(r))@,
            final(self).len_bits() == old(self).len_bits(),
    {
        &mut self.data
    }

    /// Total number of bits in use.
    pub fn bit_len(&self) -> (r: usize)
        ensures
            r == self.len_bits(),
    {
        self.bit_len
    }

    /// Get bit `i` of the live region.
    pub fn get_bit(&self, i: usize) -> (r: bool)
        requires
            self.wf(),
            i < self.len_bits(),
        ensures
            r == self.bits()[i as int],
    {
        proof {
            lemma_bit_index(i as int);
            lemma_u8_bit01(self.data@[i as int / 8], (i as int % 8) as u8);
        }
        let byte: usize = i / 8;
        let off: u8 = (i % 8) as u8;
        ((self.data[byte] >> off) & 1) != 0
    }

    /// Fallible bit read: `IndexOutOfRange` at or above the live length.
    pub fn try_get_bit(&self, i: usize) -> (r: Result<bool, BitArrayError>)
        requires
            self.wf(),
        ensures
            i < self.len_bits() <==> r is Ok,
            r matches Ok(v) ==> v == self.bits()[i as int],
            i >= self.len_bits() ==> r == Err::<bool, BitArrayError>(BitArrayError::IndexOutOfRange),
    {
        if i < self.bit_len {
            Ok(self.get_bit(i))
        } else {
            Err(BitArrayError::IndexOutOfRange)
        }
    }

    /// Set bit `i` of the live region to `val`.
    pub fn set_bit(&mut self, i: usize, val: bool)
        requires
            old(self).wf(),
            i < old(self).len_bits(),
        ensures
            final(self).wf(),
            final(self).len_bits() == old(self).len_bits(),
            final(self).bits() == old(self).bits().update(i as int, val),
    {
        proof {
            lemma_bit_index(i as int);
        }
        let byte: usize = i / 8;
        let off: u8 = (i % 8) as u8;
        if val {
            self.data[byte] = self.data[byte] | (1u8 << off);
        } else {
            self.data[byte] = self.data[byte] & !(1u8 << off);
        }
        proof {
            self.lemma_after_single_byte_write(*old(self), i as int, val);
        }
    }

    /// Fallible bit write: `IndexOutOfRange` at or above the live length,
    /// leaving the buffer unchanged.
    pub fn try_set_bit(&mut self, i: usize, val: bool) -> (r: Result<(), BitArrayError>)
        requires
            old(self).wf(),
        ensures
            i < old(self).len_bits() <==> r is Ok,
            r is Ok ==> final(self).wf() && final(self).len_bits() == old(self).len_bits()
                && final(self).bits() == old(self).bits().update(i as int, val),
            i >= old(self).len_bits() ==> *final(self) == *old(self) && r == Err::<
                (),
                BitArrayError,
            >(BitArrayError::IndexOutOfRange),
    {
        if i < self.bit_len {
            self.set_bit(i, val);
            Ok(())
        } else {
            Err(BitArrayError::IndexOutOfRange)
        }
    }

    /// After writing one byte so that only bit `i` changed (to `val`) and
    /// every other bit of that byte kept its value, the whole bit view is
    /// the pointwise update.
    proof fn lemma_after_single_byte_write(&self, prev: Self, i: int, val: bool)
        requires
            prev.wf(),
            0 <= i < prev.len_bits(),
            self.bit_len == prev.bit_len,
            self.bytes().len() == N,
            self.bytes() == prev.bytes().update(
                i / 8,
                if val {
                    prev.bytes()[i / 8] | (1u8 << ((i % 8) as u8))
                } else {
                    prev.bytes()[i / 8] & !(1u8 << ((i % 8) as u8))
                },
            ),
        ensures
            self.wf(),
            self.bits() == prev.bits().update(i, val),
    {
        lemma_bit_index(i);
        let ib = i / 8;
        let io = (i % 8) as u8;
        assert forall|j: int| 0 <= j < (N as int) * 8 implies bit_of(self.bytes(), j) == (if j == i {
            val
        } else {
            bit_of(prev.bytes(), j)
        }) by {
            lemma_bit_index(j);
            let jb = j / 8;
            let jo = (j % 8) as u8;
            if jb == ib {
                if val {
                    lemma_u8_or_bit(prev.bytes()[ib], io, jo);
                } else {
                    lemma_u8_clear_bit(prev.bytes()[ib], io, jo);
                }
                assert(j == i <==> jo == io);
            } else {
                assert(self.bytes()[jb] == prev.bytes()[jb]);
            }
        }
        assert forall|j: int| self.len_bits() <= j < (N as int) * 8 implies !bit_of(
            self.bytes(),
            j,
        ) by {
            assert(!bit_of(prev.bytes(), j));
        }
        assert(self.bits() =~= prev.bits().update(i, val));
    }

    /// Clear all bits at or above `bit_len`: zero the non-participating
    /// bytes and the high bits of the boundary byte.
    fn mask_tail(&mut self)
        requires
            old(self).len_bits() <= (N as int) * 8,
        ensures
            final(self).len_bits() == old(self).len_bits(),
            final(self).wf(),
            final(self).bits() == old(self).bits(),
    {
        let ghost orig = *self;
        let bc: usize = self.bit_len / 8 + if self.bit_len % 8 != 0 {
            1usize
        } else {
            0usize
        };
        proof {
            lemma_bit_index(self.bit_len as int);
            assert(bc <= N);
        }
        let mut i: usize = bc;
        while i < N
            invariant
                bc <= i <= N,
                self.bit_len == orig.bit_len,
                self.bytes().len() == N,
                forall|b: int|
                    0 <= b < N ==> self.bytes()[b] == (if bc <= b < i {
                        0u8
                    } else {
                        orig.bytes()[b]
                    }),
            decreases N - i,
        {
            self.data[i] = 0;
            i += 1;
        }
        let rem: usize = self.bit_len % 8;
        if rem != 0 {
            let r8: u8 = rem as u8;
            proof {
                lemma_bit_index(self.bit_len as int);
                assert((1u8 << r8) >= 1) by (bit_vector)
                    requires
                        0 < r8 < 8,
                ;
            }
            let mask: u8 = (1u8 << r8) - 1;
            self.data[bc - 1] = self.data[bc - 1] & mask;
        }
        proof {
            self.lemma_mask_tail_post(orig, bc as int);
        }
    }

    /// The byte-level effect of `mask_tail` yields exactly the tail-masked
    /// bit view of the original buffer.
    proof fn lemma_mask_tail_post(&self, orig: Self, bc: int)
        requires
            orig.len_bits() <= (N as int) * 8,
            orig.bytes().len() == N,
            self.bit_len == orig.bit_len,
            self.bytes().len() == N,
            bc == spec_byte_count(orig.len_bits()),
            forall|b: int|
                0 <= b < N && b != bc - 1 ==> self.bytes()[b] == (if bc <= b {
                    0u8
                } else {
                    orig.bytes()[b]
                }),
            orig.len_bits() % 8 != 0 && 0 < bc <= N ==> self.bytes()[bc - 1] == (orig.bytes()[bc - 1]
                & (((1u8 << ((orig.len_bits() % 8) as u8)) - 1) as u8)),
            orig.len_bits() % 8 == 0 && 0 < bc <= N ==> self.bytes()[bc - 1] == orig.bytes()[bc - 1],
        ensures
            self.wf(),
            self.bits() == orig.bits(),
    {
        let len = orig.len_bits() as int;
        let q = len / 8;
        let rem = len % 8;
        lemma_bit_index(len);
        assert forall|j: int| 0 <= j < (N as int) * 8 implies bit_of(self.bytes(), j) == (if j < len {
            bit_of(orig.bytes(), j)
        } else {
            false
        }) by {
            lemma_bit_index(j);
            let jb = j / 8;
            let jo = (j % 8) as u8;
            if jb >= bc {
                assert(self.bytes()[jb] == 0u8);
                lemma_u8_zero_bit(jo);
                assert(j >= len);
            } else if rem != 0 && jb == bc - 1 {
                assert(jb == q);
                lemma_u8_mask_bit(orig.bytes()[jb], rem as u8, jo);
                assert(j < len <==> jo < rem);
            } else {
                assert(self.bytes()[jb] == orig.bytes()[jb]);
                assert(j < len);
            }
        }
        assert(self.bits() =~= orig.bits());
    }

    /// Rotate the live bits left by `k` positions: the bit at `i` moves to
    /// `(i + k) % bit_len`.  A no-op on an empty ring; `k` is reduced
    /// modulo the bit length.
    #[verifier::loop_isolation(false)]
    pub fn rotate_left(&mut self, k: usize)
        requires
            old(self).wf(),
        ensures
            final(self).wf(),
            final(self).len_bits() == old(self).len_bits(),
            final(self).bits() == rotl_spec(old(self).bits(), k as int),
    {
        let ghost orig = *self;
        let bit_len: usize = self.bit_len;
        if bit_len == 0 {
            proof {
                assert(rotl_spec(orig.bits(), k as int) =~= orig.bits());
            }
            return ;
        }
        let kr: usize = k % bit_len;
        let ghost len = bit_len as int;
        if kr == 0 {
            proof {
                lemma_rotate_identity(orig.bits(), k as int);
            }
            return ;
        }
        let mut out: [u8; N] = vstd::array::array_fill_for_copy_types(0u8);
        proof {
            assert forall|j: int| 0 <= j < (N as int) * 8 implies !bit_of(out@, j) by {
                lemma_bit_index(j);
                assert(out@[j / 8] == 0u8);
                lemma_u8_zero_bit((j % 8) as u8);
            }
        }
        let mut i: usize = 0;
        while i < bit_len
            invariant
                0 <= i <= bit_len,
                0 < kr < bit_len,
                bit_len == self.bit_len,
                orig.wf(),
                bit_len == orig.len_bits(),
                self.bytes() == orig.bytes(),
                out@.len() == N,
                forall|j: int|
                    0 <= j < (N as int) * 8 ==> bit_of(out@, j) == (if 0 <= j < bit_len && (j
                        - kr) % (bit_len as int) < i {
                        bit_of(orig.bytes(), (j - kr) % (bit_len as int))
                    } else {
                        false
                    }),
            decreases bit_len - i,
        {
            proof {
                lemma_bit_index(i as int);
                lemma_u8_bit01(self.data@[i as int / 8], (i as int % 8) as u8);
            }
            let sb: usize = i / 8;
            let so: u8 = (i % 8) as u8;
            let v: bool = ((self.data[sb] >> so) & 1) != 0;
            let j0: usize = if i >= bit_len - kr {
                i - (bit_len - kr)
            } else {
                i + kr
            };
            proof {
                if i >= bit_len - kr {
                    lemma_fundamental_div_mod_converse(i as int + kr as int, len, 1, j0 as int);
                } else {
                    lemma_small_mod((i + kr) as nat, bit_len as nat);
                }
                assert(j0 as int == (i as int + kr as int) % len);
                lemma_bit_index(j0 as int);
                lemma_ring_forward(i as int, kr as int, len);
            }
            let db: usize = j0 / 8;
            let dof: u8 = (j0 % 8) as u8;
            let ghost prev_out = out@;
            if v {
                out[db] = out[db] | (1u8 << dof);
            }
            proof {
                assert(v == bit_of(orig.bytes(), i as int));
                lemma_rotl_step(
                    prev_out,
                    out@,
                    orig.bytes(),
                    len,
                    kr as int,
                    i as int,
                    j0 as int,
                    v,
                );
            }
            i += 1;
        }
        let bc: usize = bit_len / 8 + if bit_len % 8 != 0 {
            1usize
        } else {
            0usize
        };
        proof {
            lemma_bit_index(bit_len as int);
            assert(bc <= N);
        }
        let mut b: usize = 0;
        while b < bc
            invariant
                0 <= b <= bc <= N,
                0 < kr < bit_len,
                bit_len == self.bit_len,
                orig.wf(),
                bit_len == orig.len_bits(),
                bc == spec_byte_count(bit_len as nat),
                self.bytes().len() == N,
                out@.len() == N,
                forall|bi: int|
                    0 <= bi < N ==> self.bytes()[bi] == (if bi < b {
                        out@[bi]
                    } else {
                        orig.bytes()[bi]
                    }),
                forall|j: int|
                    0 <= j < (N as int) * 8 ==> bit_of(out@, j) == (if 0 <= j < bit_len && (j
                        - kr) % (bit_len as int) < bit_len {
                        bit_of(orig.bytes(), (j - kr) % (bit_len as int))
                    } else {
                        false
                    }),
            decreases bc - b,
        {
            self.data[b] = out[b];
            b += 1;
        }
        let ghost copied = *self;
        self.mask_tail();
        proof {
            assert forall|j: int| 0 <= j < bit_len implies copied.bits()[j] == rotl_spec(
                orig.bits(),
                k as int,
            )[j] by {
                lemma_bit_index(j);
                lemma_bit_index(bit_len as int);
                assert(j / 8 < bc) by {
                    assert(8 * (j / 8) <= j);
                    assert(bit_len as int == 8 * (bit_len as int / 8) + bit_len as int % 8);
                }
                assert(copied.bytes()[j / 8] == out@[j / 8]);
                assert(bit_of(copied.bytes(), j) == bit_of(out@, j));
                lemma_mod_division_less_than_divisor(j - kr, len);
                assert(bit_of(out@, j) == bit_of(orig.bytes(), (j - kr) % len));
                lemma_shift_reduce(j, k as int, len);
                assert(rotl_spec(orig.bits(), k as int)[j] == orig.bits()[(j - k) % len]);
            }
            assert(final(self).bits() =~= rotl_spec(orig.bits(), k as int));
        }
    }

    /// Rotate the live bits right by `k` positions: the bit at `i` moves to
    /// `(i - k) mod bit_len`.  Implemented as the complementary left
    /// rotation.
    pub fn rotate_right(&mut self, k: usize)
        requires
            old(self).wf(),
        ensures
            final(self).wf(),
            final(self).len_bits() == old(self).len_bits(),
            final(self).bits() == rotr_spec(old(self).bits(), k as int),
    {
        let ghost orig = *self;
        let bit_len: usize = self.bit_len;
        if bit_len == 0 {
            proof {
                assert(rotr_spec(orig.bits(), k as int) =~= orig.bits());
            }
            return ;
        }
        let kr: usize = k % bit_len;
        let ghost len = bit_len as int;
        if kr == 0 {
            proof {
                lemma_rotate_identity(orig.bits(), k as int);
            }
            return ;
        }
        self.rotate_left(bit_len - kr);
        proof {
            assert forall|j: int| 0 <= j < len implies rotl_spec(orig.bits(), len - kr)[j]
                == rotr_spec(orig.bits(), k as int)[j] by {
                // (j - (len - kr)) % len == (j + kr) % len == (j + k) % len
                assert(j - (len - kr) == len * (-1) + (j + kr));
                lemma_mod_multiples_vanish(-1, j + kr, len);
                lemma_shift_reduce(j, k as int, len);
            }
            assert(rotl_spec(orig.bits(), len - kr) =~= rotr_spec(orig.bits(), k as int));
        }
    }
}


/// One step of the rotation loop: after writing source bit `i` to ring
/// position `j0 = (i + kr) % bit_len` of `cur_out`, the bits written so far
/// are exactly the rotated images of source bits `0..i+1`.
proof fn lemma_rotl_step(
    prev_out: Seq<u8>,
    cur_out: Seq<u8>,
    src: Seq<u8>,
    bit_len: int,
    kr: int,
    i: int,
    j0: int,
    v: bool,
)
    requires
        src.len() == prev_out.len(),
        cur_out.len() == prev_out.len(),
        bit_len > 0,
        0 < kr < bit_len,
        0 <= i < bit_len,
        bit_len <= prev_out.len() * 8,
        j0 == (i + kr) % bit_len,
        v == bit_of(src, i),
        forall|j: int|
            0 <= j < prev_out.len() * 8 ==> bit_of(prev_out, j) == (if 0 <= j < bit_len && (j - kr)
                % bit_len < i {
                bit_of(src, (j - kr) % bit_len)
            } else {
                false
            }),
        v ==> cur_out == prev_out.update(j0 / 8, (prev_out[j0 / 8] | (1u8 << ((j0 % 8) as u8)))),
        !v ==> cur_out == prev_out,
    ensures
        forall|j: int|
            0 <= j < cur_out.len() * 8 ==> bit_of(cur_out, j) == (if 0 <= j < bit_len && (j - kr)
                % bit_len < i + 1 {
                bit_of(src, (j - kr) % bit_len)
            } else {
                false
            }),
{
    lemma_ring_forward(i, kr, bit_len);
    lemma_bit_index(j0);
    assert((j0 - kr) % bit_len == i);
    assert forall|j: int| 0 <= j < cur_out.len() * 8 implies bit_of(cur_out, j) == (if 0 <= j
        < bit_len && (j - kr) % bit_len < i + 1 {
        bit_of(src, (j - kr) % bit_len)
    } else {
        false
    }) by {
        lemma_bit_index(j);
        if j == j0 {
            if v {
                lemma_u8_or_bit(prev_out[j0 / 8], (j0 % 8) as u8, (j0 % 8) as u8);
                assert(cur_out[j0 / 8] == (prev_out[j0 / 8] | (1u8 << ((j0 % 8) as u8))));
                assert(bit_of(cur_out, j0));
            } else {
                assert(cur_out[j0 / 8] == prev_out[j0 / 8]);
                assert(bit_of(cur_out, j0) == bit_of(prev_out, j0));
                assert(!bit_of(prev_out, j0));
            }
        } else {
            if v {
                if j / 8 == j0 / 8 {
                    assert(j % 8 != j0 % 8);
                    lemma_u8_or_bit(prev_out[j0 / 8], (j0 % 8) as u8, (j % 8) as u8);
                    assert(cur_out[j / 8] == (prev_out[j0 / 8] | (1u8 << ((j0 % 8) as u8))));
                    assert(bit_of(cur_out, j) == bit_of(prev_out, j));
                } else {
                    assert(cur_out[j / 8] == prev_out[j / 8]);
                    assert(bit_of(cur_out, j) == bit_of(prev_out, j));
                }
            } else {
                assert(bit_of(cur_out, j) == bit_of(prev_out, j));
            }
            if 0 <= j < bit_len {
                lemma_ring_backward(j, kr, bit_len);
                if (j - kr) % bit_len == i {
                    assert(((j - kr) % bit_len + kr) % bit_len == j);
                    assert(j == j0);
                }
            }
        }
    }
}

/// Moving `i` forward by `kr` on a ring of size `len` lands in range, and
/// moving the image back by `kr` returns to `i`.
proof fn lemma_ring_forward(i: int, kr: int, len: int)
    requires
        len > 0,
        0 <= kr < len,
        0 <= i < len,
    ensures
        0 <= (i + kr) % len < len,
        ((i + kr) % len - kr) % len == i,
{
    lemma_mod_division_less_than_divisor(i + kr, len);
    lemma_fundamental_div_mod(i + kr, len);
    let q = (i + kr) / len;
    assert(len * (-q) == -(len * q)) by (nonlinear_arith);
    assert((i + kr) % len - kr == len * (-q) + i);
    lemma_mod_multiples_vanish(-q, i, len);
    lemma_small_mod(i as nat, len as nat);
}

/// Moving `j` backward by `kr` on a ring of size `len` lands in range, and
/// moving the image forward by `kr` returns to `j`.
proof fn lemma_ring_backward(j: int, kr: int, len: int)
    requires
        len > 0,
        0 <= kr < len,
        0 <= j < len,
    ensures
        0 <= (j - kr) % len < len,
        ((j - kr) % len + kr) % len == j,
{
    lemma_mod_division_less_than_divisor(j - kr, len);
    lemma_fundamental_div_mod(j - kr, len);
    let q = (j - kr) / len;
    assert(len * (-q) == -(len * q)) by (nonlinear_arith);
    assert((j - kr) % len + kr == len * (-q) + j);
    lemma_mod_multiples_vanish(-q, j, len);
    lemma_small_mod(j as nat, len as nat);
}

/// Reducing the shift modulo the ring length reads from the same source
/// position.
proof fn lemma_shift_reduce(j: int, k: int, len: int)
    requires
        len > 0,
        k >= 0,
    ensures
        (j - k) % len == (j - (k % len)) % len,
        (j + k) % len == (j + (k % len)) % len,
{
    lemma_fundamental_div_mod(k, len);
    let q = k / len;
    assert(len * (-q) == -(len * q)) by (nonlinear_arith);
    assert(j - k == len * (-q) + (j - (k % len)));
    lemma_mod_multiples_vanish(-q, j - (k % len), len);
    assert(j + k == len * q + (j + (k % len)));
    lemma_mod_multiples_vanish(q, j + (k % len), len);
}

/// Rotating by zero, or by any whole number of turns of the ring (in
/// particular by the full bit length), leaves every bit in place.
pub proof fn lemma_rotate_identity(s: Seq<bool>, k: int)
    requires
        k >= 0,
        s.len() == 0 || k % (s.len() as int) == 0,
    ensures
        rotl_spec(s, k) == s,
        rotr_spec(s, k) == s,
{
    if s.len() > 0 {
        let len = s.len() as int;
        assert forall|j: int| 0 <= j < len implies rotl_spec(s, k)[j] == s[j] && rotr_spec(s, k)[j]
            == s[j] by {
            lemma_shift_reduce(j, k, len);
            lemma_small_mod(j as nat, len as nat);
        }
        assert(rotl_spec(s, k) =~= s);
        assert(rotr_spec(s, k) =~= s);
    }
}

/// The rotation amount only matters modulo the ring length.
pub proof fn lemma_rotate_modulo(s: Seq<bool>, k: int)
    requires
        k >= 0,
        s.len() > 0,
    ensures
        rotl_spec(s, k) == rotl_spec(s, k % (s.len() as int)),
        rotr_spec(s, k) == rotr_spec(s, k % (s.len() as int)),
{
    let len = s.len() as int;
    assert forall|j: int| 0 <= j < len implies rotl_spec(s, k)[j] == rotl_spec(s, k % len)[j]
        && rotr_spec(s, k)[j] == rotr_spec(s, k % len)[j] by {
        lemma_shift_reduce(j, k, len);
    }
    assert(rotl_spec(s, k) =~= rotl_spec(s, k % len));
    assert(rotr_spec(s, k) =~= rotr_spec(s, k % len));
}

/// A left rotation followed by a right rotation by the same amount is the
/// identity, and so is the opposite order.
pub proof fn lemma_rotate_roundtrip(s: Seq<bool>, k: int)
    requires
        k >= 0,
    ensures
        rotr_spec(rotl_spec(s, k), k) == s,
        rotl_spec(rotr_spec(s, k), k) == s,
{
    if s.len() > 0 {
        let len = s.len() as int;
        assert forall|j: int| 0 <= j < len implies rotr_spec(rotl_spec(s, k), k)[j] == s[j]
            && rotl_spec(rotr_spec(s, k), k)[j] == s[j] by {
            lemma_mod_division_less_than_divisor(j + k, len);
            lemma_mod_division_less_than_divisor(j - k, len);
            // right-then-index: ((j + k) % len - k) % len == j
            lemma_sub_mod_noop_right((j + k) % len, k, len);
            lemma_sub_mod_noop(j + k, k, len);
            lemma_small_mod(j as nat, len as nat);
            // left-then-index: ((j - k) % len + k) % len == j
            lemma_add_mod_noop_right((j - k) % len, k, len);
            lemma_add_mod_noop(j - k, k, len);
        }
        assert(rotr_spec(rotl_spec(s, k), k) =~= s);
        assert(rotl_spec(rotr_spec(s, k), k) =~= s);
    }
}

/// The 16 bits of a `u16`, LSB first.
pub open spec fn u16_bits(x: u16) -> Seq<bool> {
    Seq::new(16, |i: int| (x >> (i as u16)) & 1 == 1)
}

/// Native fixed-width left rotation of a `u16` by `0 <= k < 16`.
pub open spec fn u16_rotl(x: u16, k: int) -> u16
    recommends
        0 <= k < 16,
{
    if k == 0 {
        x
    } else {
        (x << (k as u16)) | (x >> ((16 - k) as u16))
    }
}

/// The little-endian `u16` value of two bytes.
pub open spec fn u16_from_le(b0: u8, b1: u8) -> u16 {
    (b0 as u16) | ((b1 as u16) << 8)
}

proof fn lemma_u16_eq_from_bits(x: u16, y: u16)
    by (bit_vector)
    requires
        (x >> 0) & 1 == (y >> 0) & 1,
        (x >> 1) & 1 == (y >> 1) & 1,
        (x >> 2) & 1 == (y >> 2) & 1,
        (x >> 3) & 1 == (y >> 3) & 1,
        (x >> 4) & 1 == (y >> 4) & 1,
        (x >> 5) & 1 == (y >> 5) & 1,
        (x >> 6) & 1 == (y >> 6) & 1,
        (x >> 7) & 1 == (y >> 7) & 1,
        (x >> 8) & 1 == (y >> 8) & 1,
        (x >> 9) & 1 == (y >> 9) & 1,
        (x >> 10) & 1 == (y >> 10) & 1,
        (x >> 11) & 1 == (y >> 11) & 1,
        (x >> 12) & 1 == (y >> 12) & 1,
        (x >> 13) & 1 == (y >> 13) & 1,
        (x >> 14) & 1 == (y >> 14) & 1,
        (x >> 15) & 1 == (y >> 15) & 1,
    ensures
        x == y,
{
}

/// The bit sequence of a two-byte buffer equals the bit sequence of its
/// little-endian `u16` value.
proof fn lemma_u16_le_bits(b0: u8, b1: u8)
    ensures
        u16_bits(u16_from_le(b0, b1)) =~= bits_of(seq![b0, b1], 16),
{
    assert forall|j: int| 0 <= j < 16 implies u16_bits(u16_from_le(b0, b1))[j] == bits_of(
        seq![b0, b1],
        16,
    )[j] by {
        lemma_bit_index(j);
        let ju = j as u16;
        if j < 8 {
            assert(j / 8 == 0 && j % 8 == j);
            assert(((((b0 as u16) | ((b1 as u16) << 8)) >> ju) & 1 == 1) == ((b0 >> (ju as u8)) & 1
                == 1)) by (bit_vector)
                requires
                    ju < 8,
            ;
        } else {
            assert(j / 8 == 1 && j % 8 == j - 8) by {
                lemma_fundamental_div_mod_converse(j, 8, 1, j - 8);
            }
            assert(((((b0 as u16) | ((b1 as u16) << 8)) >> ju) & 1 == 1) == ((b1 >> (((ju - 8)
                as int) as u8)) & 1 == 1)) by (bit_vector)
                requires
                    8 <= ju < 16,
            ;
        }
    }
}

/// Rotating the 16 bits of a `u16` as a sequence agrees with the native
/// fixed-width rotation of the value.
proof fn lemma_u16_rotl_bits(x: u16, k: int)
    requires
        0 <= k < 16,
    ensures
        u16_bits(u16_rotl(x, k)) =~= rotl_spec(u16_bits(x), k),
{
    if k != 0 {
        assert forall|j: int| 0 <= j < 16 implies u16_bits(u16_rotl(x, k))[j] == rotl_spec(
            u16_bits(x),
            k,
        )[j] by {
            let m = (j - k) % 16;
            lemma_mod_division_less_than_divisor(j - k, 16);
            if j >= k {
                lemma_small_mod((j - k) as nat, 16);
            } else {
                lemma_fundamental_div_mod_converse(j - k, 16, -1, j - k + 16);
            }
            let ku = k as u16;
            let ju = j as u16;
            let mu = m as u16;
            assert(((((x << ku) | (x >> ((16 - ku) as u16))) >> ju) & 1 == 1) == ((x >> mu) & 1
                == 1)) by (bit_vector)
                requires
                    0 < ku < 16,
                    ju < 16,
                    mu < 16,
                    ju >= ku ==> mu == ju - ku,
                    ju < ku ==> mu + ku == ju + 16,
            ;
        }
    } else {
        lemma_rotate_identity(u16_bits(x), 0);
    }
}

/// Cross-check against a native fixed-width rotation: when a two-byte
/// buffer uses all 16 bits, a ring rotation by `k` turns its little-endian
/// value into the native `u16` rotate-left by `k % 16`.
pub proof fn lemma_rotate_matches_native_u16(pre: BitArray<2>, post: BitArray<2>, k: int)
    requires
        pre.wf(),
        post.wf(),
        pre.len_bits() == 16,
        post.len_bits() == 16,
        k >= 0,
        post.bits() == rotl_spec(pre.bits(), k),
    ensures
        u16_from_le(post.bytes()[0], post.bytes()[1]) == u16_rotl(
            u16_from_le(pre.bytes()[0], pre.bytes()[1]),
            k % 16,
        ),
{
    let xpre = u16_from_le(pre.bytes()[0], pre.bytes()[1]);
    let xpost = u16_from_le(post.bytes()[0], post.bytes()[1]);
    assert(pre.bytes() =~= seq![pre.bytes()[0], pre.bytes()[1]]);
    assert(post.bytes() =~= seq![post.bytes()[0], post.bytes()[1]]);
    lemma_u16_le_bits(pre.bytes()[0], pre.bytes()[1]);
    lemma_u16_le_bits(post.bytes()[0], post.bytes()[1]);
    lemma_rotate_modulo(pre.bits(), k);
    lemma_u16_rotl_bits(xpre, k % 16);
    assert(u16_bits(xpost) =~= u16_bits(u16_rotl(xpre, k % 16)));
    let xr = u16_rotl(xpre, k % 16);
    assert forall|j: u16| j < 16 implies #[trigger] ((xpost >> j) & 1) == ((xr >> j) & 1) by {
        assert(u16_bits(xpost)[j as int] == u16_bits(xr)[j as int]);
        lemma_u16_bit01(xpost, j);
        lemma_u16_bit01(xr, j);
    }
    lemma_u16_eq_from_bits(xpost, xr);
}


/// The 8 bits of a `u8`, LSB first.
pub open spec fn u8_bits(x: u8) -> Seq<bool> {
    Seq::new(8, |i: int| (x >> (i as u8)) & 1 == 1)
}

/// Native fixed-width left rotation of a `u8` by `0 <= k < 8`.
pub open spec fn u8_rotl(x: u8, k: int) -> u8
    recommends
        0 <= k < 8,
{
    if k == 0 {
        x
    } else {
        (x << (k as u8)) | (x >> ((8 - k) as u8))
    }
}

/// The bit sequence of a 1-byte buffer equals the bit sequence of its
/// little-endian `u8` value.
proof fn lemma_u8_le_bits(b0: u8)
    ensures
        u8_bits(b0) =~= bits_of(seq![b0], 8),
{
    assert forall|j: int| 0 <= j < 8 implies u8_bits(b0)[j] == bits_of(seq![b0], 8)[j] by {
        lemma_bit_index(j);
        assert(j / 8 == 0 && j % 8 == j);
    }
}

/// Rotating the 8 bits of a `u8` as a sequence agrees with the native
/// fixed-width rotation of the value.
proof fn lemma_u8_rotl_bits(x: u8, k: int)
    requires
        0 <= k < 8,
    ensures
        u8_bits(u8_rotl(x, k)) =~= rotl_spec(u8_bits(x), k),
{
    if k != 0 {
        assert forall|j: int| 0 <= j < 8 implies u8_bits(u8_rotl(x, k))[j] == rotl_spec(
            u8_bits(x),
            k,
        )[j] by {
            let m = (j - k) % 8;
            lemma_mod_division_less_than_divisor(j - k, 8);
            if j >= k {
                lemma_small_mod((j - k) as nat, 8);
            } else {
                lemma_fundamental_div_mod_converse(j - k, 8, -1, j - k + 8);
            }
            let ku = k as u8;
            let ju = j as u8;
            let mu = m as u8;
            assert(((((x << ku) | (x >> ((8 - ku) as u8))) >> ju) & 1 == 1) == ((x >> mu) & 1
                == 1)) by (bit_vector)
                requires
                    0 < ku < 8,
                    ju < 8,
                    mu < 8,
                    ju >= ku ==> mu == ju - ku,
                    ju < ku ==> mu + ku == ju + 8,
            ;
        }
    } else {
        lemma_rotate_identity(u8_bits(x), 0);
    }
}

/// Cross-check against a native fixed-width rotation: when a 1-byte
/// buffer uses all 8 bits, a ring rotation by `k` turns its little-endian
/// value into the native `u8` rotate-left by `k % 8`.
pub proof fn lemma_rotate_matches_native_u8(pre: BitArray<1>, post: BitArray<1>, k: int)
    requires
        pre.wf(),
        post.wf(),
        pre.len_bits() == 8,
        post.len_bits() == 8,
        k >= 0,
        post.bits() == rotl_spec(pre.bits(), k),
    ensures
        post.bytes()[0] == u8_rotl(pre.bytes()[0], k % 8),
{
    assert(pre.bytes() =~= seq![pre.bytes()[0]]);
    assert(post.bytes() =~= seq![post.bytes()[0]]);
    lemma_u8_le_bits(pre.bytes()[0]);
    lemma_u8_le_bits(post.bytes()[0]);
    let xpre = pre.bytes()[0];
    let xpost = post.bytes()[0];
    assert(u8_bits(xpre) == pre.bits() && u8_bits(xpost) == post.bits());
    lemma_rotate_modulo(pre.bits(), k);
    lemma_u8_rotl_bits(xpre, k % 8);
    let xr = u8_rotl(xpre, k % 8);
    assert(u8_bits(xpost) =~= u8_bits(xr));
    assert forall|j: u8| j < 8 implies #[trigger] ((xpost >> j) & 1) == ((xr >> j) & 1) by {
        assert(u8_bits(xpost)[j as int] == u8_bits(xr)[j as int]);
        lemma_u8_bit01(xpost, j);
        lemma_u8_bit01(xr, j);
    }
    lemma_u8_eq_from_bits(xpost, xr);
}

/// The 32 bits of a `u32`, LSB first.
pub open spec fn u32_bits(x: u32) -> Seq<bool> {
    Seq::new(32, |i: int| (x >> (i as u32)) & 1 == 1)
}

/// Native fixed-width left rotation of a `u32` by `0 <= k < 32`.
pub open spec fn u32_rotl(x: u32, k: int) -> u32
    recommends
        0 <= k < 32,
{
    if k == 0 {
        x
    } else {
        (x << (k as u32)) | (x >> ((32 - k) as u32))
    }
}

/// The little-endian `u32` value of 4 bytes.
pub open spec fn u32_from_le(b0: u8, b1: u8, b2: u8, b3: u8) -> u32 {
    (b0 as u32) | ((b1 as u32) << 8) | ((b2 as u32) << 16) | ((b3 as u32) << 24)
}

proof fn lemma_u32_bit01(b: u32, j: u32)
    by (bit_vector)
    requires
        j < 32,
    ensures
        (b >> j) & 1 == 0 || (b >> j) & 1 == 1,
{
}

proof fn lemma_u32_eq_from_bits(x: u32, y: u32)
    by (bit_vector)
    requires
        (x >> 0) & 1 == (y >> 0) & 1,
        (x >> 1) & 1 == (y >> 1) & 1,
        (x >> 2) & 1 == (y >> 2) & 1,
        (x >> 3) & 1 == (y >> 3) & 1,
        (x >> 4) & 1 == (y >> 4) & 1,
        (x >> 5) & 1 == (y >> 5) & 1,
        (x >> 6) & 1 == (y >> 6) & 1,
        (x >> 7) & 1 == (y >> 7) & 1,
        (x >> 8) & 1 == (y >> 8) & 1,
        (x >> 9) & 1 == (y >> 9) & 1,
        (x >> 10) & 1 == (y >> 10) & 1,
        (x >> 11) & 1 == (y >> 11) & 1,
        (x >> 12) & 1 == (y >> 12) & 1,
        (x >> 13) & 1 == (y >> 13) & 1,
        (x >> 14) & 1 == (y >> 14) & 1,
        (x >> 15) & 1 == (y >> 15) & 1,
        (x >> 16) & 1 == (y >> 16) & 1,
        (x >> 17) & 1 == (y >> 17) & 1,
        (x >> 18) & 1 == (y >> 18) & 1,
        (x >> 19) & 1 == (y >> 19) & 1,
        (x >> 20) & 1 == (y >> 20) & 1,
        (x >> 21) & 1 == (y >> 21) & 1,
        (x >> 22) & 1 == (y >> 22) & 1,
        (x >> 23) & 1 == (y >> 23) & 1,
        (x >> 24) & 1 == (y >> 24) & 1,
        (x >> 25) & 1 == (y >> 25) & 1,
        (x >> 26) & 1 == (y >> 26) & 1,
        (x >> 27) & 1 == (y >> 27) & 1,
        (x >> 28) & 1 == (y >> 28) & 1,
        (x >> 29) & 1 == (y >> 29) & 1,
        (x >> 30) & 1 == (y >> 30) & 1,
        (x >> 31) & 1 == (y >> 31) & 1,
    ensures
        x == y,
{
}

/// The bit sequence of a 4-byte buffer equals the bit sequence of its
/// little-endian `u32` value.
proof fn lemma_u32_le_bits(b0: u8, b1: u8, b2: u8, b3: u8)
    ensures
        u32_bits(u32_from_le(b0, b1, b2, b3)) =~= bits_of(seq![b0, b1, b2, b3], 32),
{
    assert forall|j: int| 0 <= j < 32 implies u32_bits(u32_from_le(b0, b1, b2, b3))[j] == bits_of(
        seq![b0, b1, b2, b3],
        32,
    )[j] by {
        lemma_bit_index(j);
        let ju = j as u32;
        if j < 8 {
            assert(j / 8 == 0 && j % 8 == j);
            assert(((((b0 as u32) | ((b1 as u32) << 8u32) | ((b2 as u32) << 16u32) | ((b3 as u32) << 24u32)) >> ju) & 1 == 1) == ((b0 >> (ju as u8)) & 1 == 1)) by (bit_vector)
                requires
                    ju < 8,
            ;
        }         else if j < 16 {
            assert(j / 8 == 1 && j % 8 == j - 8) by {
                lemma_fundamental_div_mod_converse(j, 8, 1, j - 8);
            }
            assert(((((b0 as u32) | ((b1 as u32) << 8u32) | ((b2 as u32) << 16u32) | ((b3 as u32) << 24u32)) >> ju) & 1 == 1) == ((b1 >> (((ju - 8) as int) as u8)) & 1 == 1)) by (bit_vector)
                requires
                    8 <= ju < 16,
            ;
        }         else if j < 24 {
            assert(j / 8 == 2 && j % 8 == j - 16) by {
                lemma_fundamental_div_mod_converse(j, 8, 2, j - 16);
            }
            assert(((((b0 as u32) | ((b1 as u32) << 8u32) | ((b2 as u32) << 16u32) | ((b3 as u32) << 24u32)) >> ju) & 1 == 1) == ((b2 >> (((ju - 16) as int) as u8)) & 1 == 1)) by (bit_vector)
                requires
                    16 <= ju < 24,
            ;
        }         else if j < 32 {
            assert(j / 8 == 3 && j % 8 == j - 24) by {
                lemma_fundamental_div_mod_converse(j, 8, 3, j - 24);
            }
            assert(((((b0 as u32) | ((b1 as u32) << 8u32) | ((b2 as u32) << 16u32) | ((b3 as u32) << 24u32)) >> ju) & 1 == 1) == ((b3 >> (((ju - 24) as int) as u8)) & 1 == 1)) by (bit_vector)
                requires
                    24 <= ju < 32,
            ;
        }
    }
}

/// Rotating the 32 bits of a `u32` as a sequence agrees with the native
/// fixed-width rotation of the value.
proof fn lemma_u32_rotl_bits(x: u32, k: int)
    requires
        0 <= k < 32,
    ensures
        u32_bits(u32_rotl(x, k)) =~= rotl_spec(u32_bits(x), k),
{
    if k != 0 {
        assert forall|j: int| 0 <= j < 32 implies u32_bits(u32_rotl(x, k))[j] == rotl_spec(
            u32_bits(x),
            k,
        )[j] by {
            let m = (j - k) % 32;
            lemma_mod_division_less_than_divisor(j - k, 32);
            if j >= k {
                lemma_small_mod((j - k) as nat, 32);
            } else {
                lemma_fundamental_div_mod_converse(j - k, 32, -1, j - k + 32);
            }
            let ku = k as u32;
            let ju = j as u32;
            let mu = m as u32;
            assert(((((x << ku) | (x >> ((32 - ku) as u32))) >> ju) & 1 == 1) == ((x >> mu) & 1
                == 1)) by (bit_vector)
                requires
                    0 < ku < 32,
                    ju < 32,
                    mu < 32,
                    ju >= ku ==> mu == ju - ku,
                    ju < ku ==> mu + ku == ju + 32,
            ;
        }
    } else {
        lemma_rotate_identity(u32_bits(x), 0);
    }
}

/// Cross-check against a native fixed-width rotation: when a 4-byte
/// buffer uses all 32 bits, a ring rotation by `k` turns its little-endian
/// value into the native `u32` rotate-left by `k % 32`.
pub proof fn lemma_rotate_matches_native_u32(pre: BitArray<4>, post: BitArray<4>, k: int)
    requires
        pre.wf(),
        post.wf(),
        pre.len_bits() == 32,
        post.len_bits() == 32,
        k >= 0,
        post.bits() == rotl_spec(pre.bits(), k),
    ensures
        u32_from_le(post.bytes()[0], post.bytes()[1], post.bytes()[2], post.bytes()[3]) == u32_rotl(u32_from_le(pre.bytes()[0], pre.bytes()[1], pre.bytes()[2], pre.bytes()[3]), k % 32),
{
    assert(pre.bytes() =~= seq![pre.bytes()[0], pre.bytes()[1], pre.bytes()[2], pre.bytes()[3]]);
    assert(post.bytes() =~= seq![post.bytes()[0], post.bytes()[1], post.bytes()[2], post.bytes()[3]]);
    lemma_u32_le_bits(pre.bytes()[0], pre.bytes()[1], pre.bytes()[2], pre.bytes()[3]);
    lemma_u32_le_bits(post.bytes()[0], post.bytes()[1], post.bytes()[2], post.bytes()[3]);
    let xpre = u32_from_le(pre.bytes()[0], pre.bytes()[1], pre.bytes()[2], pre.bytes()[3]);
    let xpost = u32_from_le(post.bytes()[0], post.bytes()[1], post.bytes()[2], post.bytes()[3]);
    lemma_rotate_modulo(pre.bits(), k);
    lemma_u32_rotl_bits(xpre, k % 32);
    let xr = u32_rotl(xpre, k % 32);
    assert(u32_bits(xpost) =~= u32_bits(xr));
    assert forall|j: u32| j < 32 implies #[trigger] ((xpost >> j) & 1) == ((xr >> j) & 1) by {
        assert(u32_bits(xpost)[j as int] == u32_bits(xr)[j as int]);
        lemma_u32_bit01(xpost, j);
        lemma_u32_bit01(xr, j);
    }
    lemma_u32_eq_from_bits(xpost, xr);
}

/// The 64 bits of a `u64`, LSB first.
pub open spec fn u64_bits(x: u64) -> Seq<bool> {
    Seq::new(64, |i: int| (x >> (i as u64)) & 1 == 1)
}

/// Native fixed-width left rotation of a `u64` by `0 <= k < 64`.
pub open spec fn u64_rotl(x: u64, k: int) -> u64
    recommends
        0 <= k < 64,
{
    if k == 0 {
        x
    } else {
        (x << (k as u64)) | (x >> ((64 - k) as u64))
    }
}

/// The little-endian `u64` value of 8 bytes.
pub open spec fn u64_from_le(b0: u8, b1: u8, b2: u8, b3: u8, b4: u8, b5: u8, b6: u8, b7: u8) -> u64 {
    (b0 as u64) | ((b1 as u64) << 8) | ((b2 as u64) << 16) | ((b3 as u64) << 24) | ((b4 as u64) << 32) | ((b5 as u64) << 40) | ((b6 as u64) << 48) | ((b7 as u64) << 56)
}

proof fn lemma_u64_bit01(b: u64, j: u64)
    by (bit_vector)
    requires
        j < 64,
    ensures
        (b >> j) & 1 == 0 || (b >> j) & 1 == 1,
{
}

proof fn lemma_u64_eq_from_bits(x: u64, y: u64)
    by (bit_vector)
    requires
        (x >> 0) & 1 == (y >> 0) & 1,
        (x >> 1) & 1 == (y >> 1) & 1,
        (x >> 2) & 1 == (y >> 2) & 1,
        (x >> 3) & 1 == (y >> 3) & 1,
        (x >> 4) & 1 == (y >> 4) & 1,
        (x >> 5) & 1 == (y >> 5) & 1,
        (x >> 6) & 1 == (y >> 6) & 1,
        (x >> 7) & 1 == (y >> 7) & 1,
        (x >> 8) & 1 == (y >> 8) & 1,
        (x >> 9) & 1 == (y >> 9) & 1,
        (x >> 10) & 1 == (y >> 10) & 1,
        (x >> 11) & 1 == (y >> 11) & 1,
        (x >> 12) & 1 == (y >> 12) & 1,
        (x >> 13) & 1 == (y >> 13) & 1,
        (x >> 14) & 1 == (y >> 14) & 1,
        (x >> 15) & 1 == (y >> 15) & 1,
        (x >> 16) & 1 == (y >> 16) & 1,
        (x >> 17) & 1 == (y >> 17) & 1,
        (x >> 18) & 1 == (y >> 18) & 1,
        (x >> 19) & 1 == (y >> 19) & 1,
        (x >> 20) & 1 == (y >> 20) & 1,
        (x >> 21) & 1 == (y >> 21) & 1,
        (x >> 22) & 1 == (y >> 22) & 1,
        (x >> 23) & 1 == (y >> 23) & 1,
        (x >> 24) & 1 == (y >> 24) & 1,
        (x >> 25) & 1 == (y >> 25) & 1,
        (x >> 26) & 1 == (y >> 26) & 1,
        (x >> 27) & 1 == (y >> 27) & 1,
        (x >> 28) & 1 == (y >> 28) & 1,
        (x >> 29) & 1 == (y >> 29) & 1,
        (x >> 30) & 1 == (y >> 30) & 1,
        (x >> 31) & 1 == (y >> 31) & 1,
        (x >> 32) & 1 == (y >> 32) & 1,
        (x >> 33) & 1 == (y >> 33) & 1,
        (x >> 34) & 1 == (y >> 34) & 1,
        (x >> 35) & 1 == (y >> 35) & 1,
        (x >> 36) & 1 == (y >> 36) & 1,
        (x >> 37) & 1 == (y >> 37) & 1,
        (x >> 38) & 1 == (y >> 38) & 1,
        (x >> 39) & 1 == (y >> 39) & 1,
        (x >> 40) & 1 == (y >> 40) & 1,
        (x >> 41) & 1 == (y >> 41) & 1,
        (x >> 42) & 1 == (y >> 42) & 1,
        (x >> 43) & 1 == (y >> 43) & 1,
        (x >> 44) & 1 == (y >> 44) & 1,
        (x >> 45) & 1 == (y >> 45) & 1,
        (x >> 46) & 1 == (y >> 46) & 1,
        (x >> 47) & 1 == (y >> 47) & 1,
        (x >> 48) & 1 == (y >> 48) & 1,
        (x >> 49) & 1 == (y >> 49) & 1,
        (x >> 50) & 1 == (y >> 50) & 1,
        (x >> 51) & 1 == (y >> 51) & 1,
        (x >> 52) & 1 == (y >> 52) & 1,
        (x >> 53) & 1 == (y >> 53) & 1,
        (x >> 54) & 1 == (y >> 54) & 1,
        (x >> 55) & 1 == (y >> 55) & 1,
        (x >> 56) & 1 == (y >> 56) & 1,
        (x >> 57) & 1 == (y >> 57) & 1,
        (x >> 58) & 1 == (y >> 58) & 1,
        (x >> 59) & 1 == (y >> 59) & 1,
        (x >> 60) & 1 == (y >> 60) & 1,
        (x >> 61) & 1 == (y >> 61) & 1,
        (x >> 62) & 1 == (y >> 62) & 1,
        (x >> 63) & 1 == (y >> 63) & 1,
    ensures
        x == y,
{
}

/// The bit sequence of a 8-byte buffer equals the bit sequence of its
/// little-endian `u64` value.
proof fn lemma_u64_le_bits(b0: u8, b1: u8, b2: u8, b3: u8, b4: u8, b5: u8, b6: u8, b7: u8)
    ensures
        u64_bits(u64_from_le(b0, b1, b2, b3, b4, b5, b6, b7)) =~= bits_of(seq![b0, b1, b2, b3, b4, b5, b6, b7], 64),
{
    assert forall|j: int| 0 <= j < 64 implies u64_bits(u64_from_le(b0, b1, b2, b3, b4, b5, b6, b7))[j] == bits_of(
        seq![b0, b1, b2, b3, b4, b5, b6, b7],
        64,
    )[j] by {
        lemma_bit_index(j);
        let ju = j as u64;
        if j < 8 {
            assert(j / 8 == 0 && j % 8 == j);
            assert(((((b0 as u64) | ((b1 as u64) << 8u64) | ((b2 as u64) << 16u64) | ((b3 as u64) << 24u64) | ((b4 as u64) << 32u64) | ((b5 as u64) << 40u64) | ((b6 as u64) << 48u64) | ((b7 as u64) << 56u64)) >> ju) & 1 == 1) == ((b0 >> (ju as u8)) & 1 == 1)) by (bit_vector)
                requires
                    ju < 8,
            ;
        }         else if j < 16 {
            assert(j / 8 == 1 && j % 8 == j - 8) by {
                lemma_fundamental_div_mod_converse(j, 8, 1, j - 8);
            }
            assert(((((b0 as u64) | ((b1 as u64) << 8u64) | ((b2 as u64) << 16u64) | ((b3 as u64) << 24u64) | ((b4 as u64) << 32u64) | ((b5 as u64) << 40u64) | ((b6 as u64) << 48u64) | ((b7 as u64) << 56u64)) >> ju) & 1 == 1) == ((b1 >> (((ju - 8) as int) as u8)) & 1 == 1)) by (bit_vector)
                requires
                    8 <= ju < 16,
            ;
        }         else if j < 24 {
            assert(j / 8 == 2 && j % 8 == j - 16) by {
                lemma_fundamental_div_mod_converse(j, 8, 2, j - 16);
            }
            assert(((((b0 as u64) | ((b1 as u64) << 8u64) | ((b2 as u64) << 16u64) | ((b3 as u64) << 24u64) | ((b4 as u64) << 32u64) | ((b5 as u64) << 40u64) | ((b6 as u64) << 48u64) | ((b7 as u64) << 56u64)) >> ju) & 1 == 1) == ((b2 >> (((ju - 16) as int) as u8)) & 1 == 1)) by (bit_vector)
                requires
                    16 <= ju < 24,
            ;
        }         else if j < 32 {
            assert(j / 8 == 3 && j % 8 == j - 24) by {
                lemma_fundamental_div_mod_converse(j, 8, 3, j - 24);
            }
            assert(((((b0 as u64) | ((b1 as u64) << 8u64) | ((b2 as u64) << 16u64) | ((b3 as u64) << 24u64) | ((b4 as u64) << 32u64) | ((b5 as u64) << 40u64) | ((b6 as u64) << 48u64) | ((b7 as u64) << 56u64)) >> ju) & 1 == 1) == ((b3 >> (((ju - 24) as int) as u8)) & 1 == 1)) by (bit_vector)
                requires
                    24 <= ju < 32,
            ;
        }         else if j < 40 {
            assert(j / 8 == 4 && j % 8 == j - 32) by {
                lemma_fundamental_div_mod_converse(j, 8, 4, j - 32);
            }
            assert(((((b0 as u64) | ((b1 as u64) << 8u64) | ((b2 as u64) << 16u64) | ((b3 as u64) << 24u64) | ((b4 as u64) << 32u64) | ((b5 as u64) << 40u64) | ((b6 as u64) << 48u64) | ((b7 as u64) << 56u64)) >> ju) & 1 == 1) == ((b4 >> (((ju - 32) as int) as u8)) & 1 == 1)) by (bit_vector)
                requires
                    32 <= ju < 40,
            ;
        }         else if j < 48 {
            assert(j / 8 == 5 && j % 8 == j - 40) by {
                lemma_fundamental_div_mod_converse(j, 8, 5, j - 40);
            }
            assert(((((b0 as u64) | ((b1 as u64) << 8u64) | ((b2 as u64) << 16u64) | ((b3 as u64) << 24u64) | ((b4 as u64) << 32u64) | ((b5 as u64) << 40u64) | ((b6 as u64) << 48u64) | ((b7 as u64) << 56u64)) >> ju) & 1 == 1) == ((b5 >> (((ju - 40) as int) as u8)) & 1 == 1)) by (bit_vector)
                requires
                    40 <= ju < 48,
            ;
        }         else if j < 56 {
            assert(j / 8 == 6 && j % 8 == j - 48) by {
                lemma_fundamental_div_mod_converse(j, 8, 6, j - 48);
            }
            assert(((((b0 as u64) | ((b1 as u64) << 8u64) | ((b2 as u64) << 16u64) | ((b3 as u64) << 24u64) | ((b4 as u64) << 32u64) | ((b5 as u64) << 40u64) | ((b6 as u64) << 48u64) | ((b7 as u64) << 56u64)) >> ju) & 1 == 1) == ((b6 >> (((ju - 48) as int) as u8)) & 1 == 1)) by (bit_vector)
                requires
                    48 <= ju < 56,
            ;
        }         else if j < 64 {
            assert(j / 8 == 7 && j % 8 == j - 56) by {
                lemma_fundamental_div_mod_converse(j, 8, 7, j - 56);
            }
            assert(((((b0 as u64) | ((b1 as u64) << 8u64) | ((b2 as u64) << 16u64) | ((b3 as u64) << 24u64) | ((b4 as u64) << 32u64) | ((b5 as u64) << 40u64) | ((b6 as u64) << 48u64) | ((b7 as u64) << 56u64)) >> ju) & 1 == 1) == ((b7 >> (((ju - 56) as int) as u8)) & 1 == 1)) by (bit_vector)
                requires
                    56 <= ju < 64,
            ;
        }
    }
}

/// Rotating the 64 bits of a `u64` as a sequence agrees with the native
/// fixed-width rotation of the value.
proof fn lemma_u64_rotl_bits(x: u64, k: int)
    requires
        0 <= k < 64,
    ensures
        u64_bits(u64_rotl(x, k)) =~= rotl_spec(u64_bits(x), k),
{
    if k != 0 {
        assert forall|j: int| 0 <= j < 64 implies u64_bits(u64_rotl(x, k))[j] == rotl_spec(
            u64_bits(x),
            k,
        )[j] by {
            let m = (j - k) % 64;
            lemma_mod_division_less_than_divisor(j - k, 64);
            if j >= k {
                lemma_small_mod((j - k) as nat, 64);
            } else {
                lemma_fundamental_div_mod_converse(j - k, 64, -1, j - k + 64);
            }
            let ku = k as u64;
            let ju = j as u64;
            let mu = m as u64;
            assert(((((x << ku) | (x >> ((64 - ku) as u64))) >> ju) & 1 == 1) == ((x >> mu) & 1
                == 1)) by (bit_vector)
                requires
                    0 < ku < 64,
                    ju < 64,
                    mu < 64,
                    ju >= ku ==> mu == ju - ku,
                    ju < ku ==> mu + ku == ju + 64,
            ;
        }
    } else {
        lemma_rotate_identity(u64_bits(x), 0);
    }
}

/// Cross-check against a native fixed-width rotation: when a 8-byte
/// buffer uses all 64 bits, a ring rotation by `k` turns its little-endian
/// value into the native `u64` rotate-left by `k % 64`.
pub proof fn lemma_rotate_matches_native_u64(pre: BitArray<8>, post: BitArray<8>, k: int)
    requires
        pre.wf(),
        post.wf(),
        pre.len_bits() == 64,
        post.len_bits() == 64,
        k >= 0,
        post.bits() == rotl_spec(pre.bits(), k),
    ensures
        u64_from_le(post.bytes()[0], post.bytes()[1], post.bytes()[2], post.bytes()[3], post.bytes()[4], post.bytes()[5], post.bytes()[6], post.bytes()[7]) == u64_rotl(u64_from_le(pre.bytes()[0], pre.bytes()[1], pre.bytes()[2], pre.bytes()[3], pre.bytes()[4], pre.bytes()[5], pre.bytes()[6], pre.bytes()[7]), k % 64),
{
    assert(pre.bytes() =~= seq![pre.bytes()[0], pre.bytes()[1], pre.bytes()[2], pre.bytes()[3], pre.bytes()[4], pre.bytes()[5], pre.bytes()[6], pre.bytes()[7]]);
    assert(post.bytes() =~= seq![post.bytes()[0], post.bytes()[1], post.bytes()[2], post.bytes()[3], post.bytes()[4], post.bytes()[5], post.bytes()[6], post.bytes()[7]]);
    lemma_u64_le_bits(pre.bytes()[0], pre.bytes()[1], pre.bytes()[2], pre.bytes()[3], pre.bytes()[4], pre.bytes()[5], pre.bytes()[6], pre.bytes()[7]);
    lemma_u64_le_bits(post.bytes()[0], post.bytes()[1], post.bytes()[2], post.bytes()[3], post.bytes()[4], post.bytes()[5], post.bytes()[6], post.bytes()[7]);
    let xpre = u64_from_le(pre.bytes()[0], pre.bytes()[1], pre.bytes()[2], pre.bytes()[3], pre.bytes()[4], pre.bytes()[5], pre.bytes()[6], pre.bytes()[7]);
    let xpost = u64_from_le(post.bytes()[0], post.bytes()[1], post.bytes()[2], post.bytes()[3], post.bytes()[4], post.bytes()[5], post.bytes()[6], post.bytes()[7]);
    lemma_rotate_modulo(pre.bits(), k);
    lemma_u64_rotl_bits(xpre, k % 64);
    let xr = u64_rotl(xpre, k % 64);
    assert(u64_bits(xpost) =~= u64_bits(xr));
    assert forall|j: u64| j < 64 implies #[trigger] ((xpost >> j) & 1) == ((xr >> j) & 1) by {
        assert(u64_bits(xpost)[j as int] == u64_bits(xr)[j as int]);
        lemma_u64_bit01(xpost, j);
        lemma_u64_bit01(xr, j);
    }
    lemma_u64_eq_from_bits(xpost, xr);
}

proof fn lemma_u16_bit01(b: u16, j: u16)
    by (bit_vector)
    requires
        j < 16,
    ensures
        (b >> j) & 1 == 0 || (b >> j) & 1 == 1,
{
}

} // verus!
