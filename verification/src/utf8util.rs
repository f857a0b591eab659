//! Conversions between text, raw bytes, and byte ordinals.
//!
//! The pipelines work on the UTF-8 bytes of their input; these helpers move
//! between strings, fixed-size byte blocks, and sequences of numeric
//! ordinals (one per byte).

use vstd::prelude::*;
use vstd::string::{StringExecFns, StringSliceAdditionalSpecFns};
use vstd::utf8::{valid_utf8, decode_utf8};

verus! {

broadcast use vstd::array::group_array_axioms;

/// The ordinal (numeric value) of each byte, in order.
pub open spec fn ord_seq(bytes: Seq<u8>) -> Seq<usize> {
    Seq::new(bytes.len(), |i: int| bytes[i] as usize)
}

/// The byte of each ordinal, in order; meaningful when every ordinal is at
/// most 255.
pub open spec fn ord_bytes(ords: Seq<usize>) -> Seq<u8> {
    Seq::new(ords.len(), |i: int| ords[i] as u8)
}

/// True when every ordinal fits in one byte.
pub open spec fn ords_in_byte_range(ords: Seq<usize>) -> bool {
    forall|i: int| 0 <= i < ords.len() ==> ords[i] <= 255
}


/// The character of one decimal digit.
pub open spec fn digit_char(d: nat) -> char {
    if d == 0 {
        '0'
    } else if d == 1 {
        '1'
    } else if d == 2 {
        '2'
    } else if d == 3 {
        '3'
    } else if d == 4 {
        '4'
    } else if d == 5 {
        '5'
    } else if d == 6 {
        '6'
    } else if d == 7 {
        '7'
    } else if d == 8 {
        '8'
    } else {
        '9'
    }
}

/// The decimal digits of `n`, most significant first.
pub open spec fn dec_chars(n: nat) -> Seq<char>
    decreases n,
{
    if n < 10 {
        seq![digit_char(n)]
    } else {
        dec_chars(n / 10) + seq![digit_char(n % 10)]
    }
}

/// The first index whose ordinal does not fit a byte (meaningful when one
/// exists).
pub open spec fn first_oversize(ords: Seq<usize>) -> int
    decreases ords.len(),
{
    if ords.len() == 0 {
        0
    } else if ords[0] > 255 {
        0
    } else {
        1 + first_oversize(ords.drop_first())
    }
}

proof fn lemma_first_oversize(ords: Seq<usize>, i: int)
    requires
        0 <= i < ords.len(),
        ords[i] > 255,
        forall|x: int| 0 <= x < i ==> ords[x] <= 255,
    ensures
        first_oversize(ords) == i,
    decreases i,
{
    if i > 0 {
        lemma_first_oversize(ords.drop_first(), i - 1);
    }
}

/// The error text naming the first out-of-range ordinal and its value.
pub open spec fn ord_range_error_chars(i: nat, v: nat) -> Seq<char> {
    "ordinal at index "@ + dec_chars(i) + " is out of byte range: "@ + dec_chars(v) + " (>255)"@
}

/// Append the decimal digits of `n` to the string.
fn append_decimal(s: &mut String, n: usize)
    ensures
        final(s)@ == old(s)@ + dec_chars(n as nat),
    decreases n,
{
    if n >= 10 {
        append_decimal(s, n / 10);
    }
    let ghost mid = s@;
    let d = n % 10;
    match d {
        0 => s.append("0"),
        1 => s.append("1"),
        2 => s.append("2"),
        3 => s.append("3"),
        4 => s.append("4"),
        5 => s.append("5"),
        6 => s.append("6"),
        7 => s.append("7"),
        8 => s.append("8"),
        _ => s.append("9"),
    }
    proof {
        reveal_strlit("0");
        reveal_strlit("1");
        reveal_strlit("2");
        reveal_strlit("3");
        reveal_strlit("4");
        reveal_strlit("5");
        reveal_strlit("6");
        reveal_strlit("7");
        reveal_strlit("8");
        reveal_strlit("9");
        assert(s@ =~= mid + seq![digit_char((n % 10) as nat)]);
        if n < 10 {
            assert(n % 10 == n) by {
                vstd::arithmetic::div_mod::lemma_small_mod(n as nat, 10);
            }
            assert(s@ =~= old(s)@ + dec_chars(n as nat));
        } else {
            assert(s@ =~= old(s)@ + (dec_chars((n / 10) as nat) + seq![
                digit_char((n % 10) as nat),
            ]));
        }
    }
}

/// Relies on `String::push`: appends exactly one character.
#[verifier::external_body]
pub(crate) fn push_char(s: &mut String, c: char)
    ensures
        final(s)@ == old(s)@.push(c),
{
    s.push(c);
}

/// Named display text of the error `String::from_utf8` reports for the
/// given bytes: a pure function of the bytes.
pub uninterp spec fn utf8_error_text(bytes: Seq<u8>) -> Seq<char>;

/// Relies on `String::from_utf8`: it succeeds exactly on valid UTF-8
/// input, yields the characters that those bytes encode, and otherwise
/// reports an error whose display text depends on the bytes alone.
#[verifier::external_body]
pub(crate) fn string_from_utf8(v: Vec<u8>) -> (r: Result<String, String>)
    ensures
        r is Ok <==> valid_utf8(v@),
        r matches Ok(s) ==> s@ == decode_utf8(v@),
        r matches Err(e) ==> e@ == utf8_error_text(v@),
{
    String::from_utf8(v).map_err(|e| format!("{e}"))
}

/// Copy the UTF-8 bytes of `s` into a fixed block of `N` bytes: truncated
/// when the text is longer, zero-padded when shorter.  Returns the block
/// and the number of bytes actually copied.
pub fn utf8_to_fixed_bytes<const N: usize>(s: &str) -> (r: ([u8; N], usize))
    ensures
        s.spec_bytes().len() >= N ==> r.1 == N,
        s.spec_bytes().len() < N ==> r.1 == s.spec_bytes().len(),
        r.0@.len() == N,
        forall|i: int| 0 <= i < r.1 ==> r.0@[i] == s.spec_bytes()[i],
        forall|i: int| r.1 <= i < N ==> r.0@[i] == 0u8,
{
    let bytes: &[u8] = s.as_bytes();
    let mut out: [u8; N] = vstd::array::array_fill_for_copy_types(0u8);
    let used: usize = if bytes.len() < N {
        bytes.len()
    } else {
        N
    };
    let mut i: usize = 0;
    while i < used
        invariant
            0 <= i <= used <= N,
            used <= bytes@.len(),
            bytes@ == s.spec_bytes(),
            out@.len() == N,
            forall|x: int| 0 <= x < i ==> out@[x] == bytes@[x],
            forall|x: int| i <= x < N ==> out@[x] == 0u8,
        decreases used - i,
    {
        out[i] = bytes[i];
        i += 1;
    }
    (out, used)
}

/// Convert raw bytes to their ordinal values.
pub fn utf8_bytes_to_ord_usize(input: &[u8]) -> (r: Vec<usize>)
    ensures
        r@ == ord_seq(input@),
{
    let mut out: Vec<usize> = Vec::new();
    let mut i: usize = 0;
    while i < input.len()
        invariant
            0 <= i <= input@.len(),
            out@.len() == i,
            forall|x: int| 0 <= x < i ==> out@[x] == input@[x] as usize,
        decreases input@.len() - i,
    {
        out.push(input[i] as usize);
        i += 1;
    }
    proof {
        assert(out@ =~= ord_seq(input@));
    }
    out
}

/// Convert raw bytes to a fixed block of `N` ordinals: truncated when the
/// input is longer, zero-padded when shorter.
pub fn utf8_bytes_to_ord_array<const N: usize>(input: &[u8]) -> (r: [usize; N])
    ensures
        forall|i: int| 0 <= i < N && i < input@.len() ==> r@[i] == input@[i] as usize,
        forall|i: int| input@.len() <= i < N ==> r@[i] == 0usize,
{
    let mut out: [usize; N] = vstd::array::array_fill_for_copy_types(0usize);
    let n: usize = if input.len() < N {
        input.len()
    } else {
        N
    };
    let mut i: usize = 0;
    while i < n
        invariant
            0 <= i <= n <= N,
            n <= input@.len(),
            input@.len() >= N ==> n == N,
            out@.len() == N,
            forall|x: int| 0 <= x < i ==> out@[x] == input@[x] as usize,
            forall|x: int| i <= x < N ==> out@[x] == 0usize,
        decreases n - i,
    {
        out[i] = input[i] as usize;
        i += 1;
    }
    out
}

/// Convert ordinals (each at most 255) back into raw bytes; any larger
/// value is rejected with an error naming the first offending index and
/// value.
pub fn ord_usize_to_utf8_bytes(ord: &[usize]) -> (r: Result<Vec<u8>, String>)
    ensures
        r is Ok <==> ords_in_byte_range(ord@),
        r matches Ok(v) ==> v@ == ord_bytes(ord@),
        r matches Err(e) ==> e@ == ord_range_error_chars(
            first_oversize(ord@) as nat,
            ord@[first_oversize(ord@)] as nat,
        ),
{
    let mut out: Vec<u8> = Vec::new();
    let mut i: usize = 0;
    while i < ord.len()
        invariant
            0 <= i <= ord@.len(),
            out@.len() == i,
            forall|x: int| 0 <= x < i ==> ord@[x] <= 255,
            forall|x: int| 0 <= x < i ==> out@[x] == ord@[x] as u8,
        decreases ord@.len() - i,
    {
        let v = ord[i];
        if v > 255 {
            proof {
                lemma_first_oversize(ord@, i as int);
            }
            let mut msg = String::new();
            msg.append("ordinal at index ");
            append_decimal(&mut msg, i);
            msg.append(" is out of byte range: ");
            append_decimal(&mut msg, v);
            msg.append(" (>255)");
            return Err(msg);
        }
        out.push(v as u8);
        i += 1;
    }
    proof {
        assert(out@ =~= ord_bytes(ord@));
    }
    Ok(out)
}

/// Convert ordinals into text: each ordinal must fit a byte and the bytes
/// must form valid UTF-8.
pub fn ord_usize_to_string(ord: &[usize]) -> (r: Result<String, String>)
    ensures
        r is Ok <==> ords_in_byte_range(ord@) && valid_utf8(ord_bytes(ord@)),
        r matches Ok(s) ==> s@ == decode_utf8(ord_bytes(ord@)),
        !ords_in_byte_range(ord@) ==> (r matches Err(e) && e@ == ord_range_error_chars(
            first_oversize(ord@) as nat,
            ord@[first_oversize(ord@)] as nat,
        )),
        ords_in_byte_range(ord@) && !valid_utf8(ord_bytes(ord@)) ==> (r matches Err(e) && e@
            == "not valid UTF-8: "@ + utf8_error_text(ord_bytes(ord@))),
{
    let bytes = match ord_usize_to_utf8_bytes(ord) {
        Ok(b) => b,
        Err(e) => {
            return Err(e);
        },
    };
    match string_from_utf8(bytes) {
        Ok(s) => Ok(s),
        Err(e) => {
            let mut msg = String::new();
            msg.append("not valid UTF-8: ");
            msg.append(e.as_str());
            Err(msg)
        },
    }
}

} // verus!
