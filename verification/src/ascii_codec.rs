//! Text armor: raw bytes as lines of zero-padded 3-digit decimal tokens.
//!
//! Each byte becomes a token of exactly three ASCII digits (`000`–`255`).
//! Tokens on a line are separated by one space, lines hold `per_line`
//! tokens and are separated by one line break; there is no trailing
//! separator.  Decoding tokenizes on spaces and line breaks and rejects
//! malformed tokens.

use vstd::prelude::*;
use vstd::arithmetic::div_mod::{
    lemma_fundamental_div_mod, lemma_mod_division_less_than_divisor, lemma_div_pos_is_pos,
    lemma_div_denominator,
};
use vstd::string::{StringExecFns, StringSliceAdditionalSpecFns};
use vstd::utf8::{
    valid_utf8, decode_utf8, encode_utf8, partial_valid_utf8, partial_valid_utf8_extend_ascii_block,
    is_leading_byte_width_1, decode_utf8_encode_utf8,
};

use crate::utf8util::string_from_utf8;

verus! {

/// Separator bytes of the armor format: space and line break.
pub open spec fn is_sep(b: u8) -> bool {
    b == 32 || b == 10
}

/// ASCII decimal digit.
pub open spec fn is_digit(b: u8) -> bool {
    48 <= b <= 57
}

/// The three-digit zero-padded decimal token of a byte.
pub open spec fn token_of(b: u8) -> Seq<u8> {
    seq![(48 + b / 100) as u8, (48 + (b / 10) % 10) as u8, (48 + b % 10) as u8]
}

/// The armor text from position `i` on: the token of each remaining byte,
/// with a space after a byte that does not end its line and a line break
/// after one that does, and nothing after the last byte.
pub open spec fn armor_encode_from(bytes: Seq<u8>, per_line: int, i: int) -> Seq<u8>
    decreases bytes.len() - i,
{
    if i < 0 || i >= bytes.len() {
        Seq::empty()
    } else if i + 1 == bytes.len() {
        token_of(bytes[i])
    } else {
        token_of(bytes[i]) + seq![
            if i % per_line == per_line - 1 {
                10u8
            } else {
                32u8
            },
        ] + armor_encode_from(bytes, per_line, i + 1)
    }
}

/// The complete armor text of a byte sequence.
pub open spec fn armor_encode_spec(bytes: Seq<u8>, per_line: int) -> Seq<u8> {
    armor_encode_from(bytes, per_line, 0)
}

/// Length of the leading run of non-separator bytes.
pub open spec fn run_len(s: Seq<u8>) -> int
    decreases s.len(),
{
    if s.len() == 0 || is_sep(s[0]) {
        0
    } else {
        1 + run_len(s.drop_first())
    }
}

/// The run length is determined by where the first separator stands.
proof fn lemma_run_len_exact(s: Seq<u8>, e: int)
    requires
        0 <= e <= s.len(),
        forall|x: int| 0 <= x < e ==> !is_sep(s[x]),
        e < s.len() ==> is_sep(s[e]),
    ensures
        run_len(s) == e,
    decreases e,
{
    if e == 0 {
    } else {
        lemma_run_len_exact(s.drop_first(), e - 1);
    }
}

/// The maximal non-separator runs of the text, in order.
pub open spec fn tokens(s: Seq<u8>) -> Seq<Seq<u8>>
    decreases s.len(),
{
    if s.len() == 0 {
        Seq::empty()
    } else if is_sep(s[0]) {
        tokens(s.drop_first())
    } else {
        seq![s.take(run_len_clipped(s))] + tokens(s.skip(run_len_clipped(s)))
    }
}

/// The run length, clipped into `1..=len` so that `tokens` terminates by
/// construction; it coincides with `run_len` on non-separator-headed text.
pub open spec fn run_len_clipped(s: Seq<u8>) -> int {
    if run_len(s) < 1 {
        1
    } else if run_len(s) > s.len() {
        s.len() as int
    } else {
        run_len(s)
    }
}

/// Skipping a leading separator does not change the tokens.
proof fn lemma_tokens_skip_sep(s: Seq<u8>, p: int)
    requires
        0 <= p < s.len(),
        is_sep(s[p]),
    ensures
        tokens(s.skip(p)) == tokens(s.skip(p + 1)),
{
    assert(s.skip(p).drop_first() =~= s.skip(p + 1));
}

/// A maximal run starting at `p` and ending at `e` is the next token.
proof fn lemma_tokens_split_run(s: Seq<u8>, p: int, e: int)
    requires
        0 <= p < e <= s.len(),
        forall|x: int| p <= x < e ==> !is_sep(s[x]),
        e < s.len() ==> is_sep(s[e]),
    ensures
        tokens(s.skip(p)) == seq![s.subrange(p, e)] + tokens(s.skip(e)),
{
    let t = s.skip(p);
    assert(t[0] == s[p]);
    assert(forall|x: int| 0 <= x < e - p ==> t[x] == s[p + x] && !is_sep(s[p + x]));
    assert(e - p < t.len() ==> is_sep(t[e - p]));
    lemma_run_len_exact(t, e - p);
    assert(run_len_clipped(t) == e - p);
    assert(t.take(e - p) =~= s.subrange(p, e));
    assert(t.skip(e - p) =~= s.skip(e));
}

/// What is wrong with a token, if anything: not three characters, not all
/// digits, or a value above 255.
pub open spec fn token_error(t: Seq<u8>) -> Option<Seq<char>> {
    if t.len() != 3 {
        Some("token is not 3 characters"@)
    } else if !(is_digit(t[0]) && is_digit(t[1]) && is_digit(t[2])) {
        Some("invalid decimal number"@)
    } else if token_val(t) > 255 {
        Some("value out of range 0–255"@)
    } else {
        None
    }
}

/// The decimal value of a three-digit token.
pub open spec fn token_val(t: Seq<u8>) -> int
    recommends
        t.len() == 3,
{
    100 * (t[0] - 48) + 10 * (t[1] - 48) + (t[2] - 48)
}

/// Decode a sequence of tokens: the value of each, or the error of the
/// first bad one.
pub open spec fn armor_decode_tokens(ts: Seq<Seq<u8>>) -> Result<Seq<u8>, Seq<char>>
    decreases ts.len(),
{
    if ts.len() == 0 {
        Ok(Seq::empty())
    } else if token_error(ts[0]) is Some {
        Err(token_error(ts[0])->Some_0)
    } else {
        match armor_decode_tokens(ts.drop_first()) {
            Ok(rest) => Ok(seq![token_val(ts[0]) as u8] + rest),
            Err(e) => Err(e),
        }
    }
}

/// Decode armor text: tokenize, then decode the tokens.
pub open spec fn armor_decode_spec(s: Seq<u8>) -> Result<Seq<u8>, Seq<char>> {
    armor_decode_tokens(tokens(s))
}

/// Decoding a token list splits over concatenation once the first part
/// decodes cleanly.
proof fn lemma_decode_tokens_append(ts1: Seq<Seq<u8>>, ts2: Seq<Seq<u8>>)
    requires
        armor_decode_tokens(ts1) is Ok,
    ensures
        armor_decode_tokens(ts2) is Ok ==> armor_decode_tokens(ts1 + ts2) == Ok::<
            Seq<u8>,
            Seq<char>,
        >(armor_decode_tokens(ts1)->Ok_0 + armor_decode_tokens(ts2)->Ok_0),
        armor_decode_tokens(ts2) is Err ==> armor_decode_tokens(ts1 + ts2) == armor_decode_tokens(
            ts2,
        ),
    decreases ts1.len(),
{
    if ts1.len() == 0 {
        assert(ts1 + ts2 =~= ts2);
        if armor_decode_tokens(ts2) is Ok {
            assert(armor_decode_tokens(ts1)->Ok_0 + armor_decode_tokens(ts2)->Ok_0
                =~= armor_decode_tokens(ts2)->Ok_0);
        }
    } else {
        lemma_decode_tokens_append(ts1.drop_first(), ts2);
        assert((ts1 + ts2).drop_first() =~= ts1.drop_first() + ts2);
        assert((ts1 + ts2)[0] == ts1[0]);
        if armor_decode_tokens(ts2) is Ok {
            assert(armor_decode_tokens(ts1)->Ok_0 + armor_decode_tokens(ts2)->Ok_0 =~= seq![
                token_val(ts1[0]) as u8,
            ] + (armor_decode_tokens(ts1.drop_first())->Ok_0 + armor_decode_tokens(ts2)->Ok_0));
        }
    }
}


proof fn lemma_token_of_ok(b: u8)
    ensures
        token_of(b).len() == 3,
        forall|x: int| 0 <= x < 3 ==> is_digit(#[trigger] token_of(b)[x]),
        forall|x: int| 0 <= x < 3 ==> !is_sep(#[trigger] token_of(b)[x]),
        token_error(token_of(b)) is None,
        token_val(token_of(b)) == b,
{
    lemma_fundamental_div_mod(b as int, 10);
    lemma_mod_division_less_than_divisor(b as int, 10);
    lemma_fundamental_div_mod(b as int / 10, 10);
    lemma_mod_division_less_than_divisor(b as int / 10, 10);
    lemma_fundamental_div_mod(b as int, 100);
    lemma_mod_division_less_than_divisor(b as int, 100);
    lemma_div_pos_is_pos(b as int, 100);
    lemma_div_pos_is_pos(b as int, 10);
    lemma_div_pos_is_pos(b as int / 10, 10);
    assert(b as int / 10 / 10 == b as int / 100) by {
        lemma_div_denominator(b as int, 10, 10);
    }
}

/// Decoding the armor text written from position `i` on yields exactly the
/// bytes from position `i` on.
proof fn lemma_armor_decode_encode_from(bytes: Seq<u8>, per_line: int, i: int)
    requires
        per_line >= 1,
        0 <= i <= bytes.len(),
    ensures
        armor_decode_tokens(tokens(armor_encode_from(bytes, per_line, i))) == Ok::<
            Seq<u8>,
            Seq<char>,
        >(bytes.skip(i)),
    decreases bytes.len() - i,
{
    let s = armor_encode_from(bytes, per_line, i);
    if i == bytes.len() {
        assert(s =~= Seq::<u8>::empty());
        assert(bytes.skip(i) =~= Seq::<u8>::empty());
    } else {
        let b = bytes[i];
        lemma_token_of_ok(b);
        let tok = token_of(b);
        reveal_with_fuel(armor_decode_tokens, 2);
        assert(seq![tok].drop_first() =~= Seq::<Seq<u8>>::empty());
        assert(armor_decode_tokens(seq![tok]) == Ok::<Seq<u8>, Seq<char>>(seq![b])) by {
            assert(seq![token_val(tok) as u8] + Seq::<u8>::empty() =~= seq![b]);
        }
        if i + 1 == bytes.len() {
            assert(s == tok);
            assert(forall|x: int| 0 <= x < 3 ==> !is_sep(#[trigger] s[x]));
            lemma_run_len_exact(s, 3);
            assert(run_len_clipped(s) == 3);
            assert(s.take(3) =~= tok);
            assert(s.skip(3) =~= Seq::<u8>::empty());
            reveal_with_fuel(tokens, 2);
            assert(tokens(Seq::<u8>::empty()) =~= Seq::<Seq<u8>>::empty());
            assert(tokens(s) =~= seq![tok]);
            assert(bytes.skip(i) =~= seq![b]);
        } else {
            let sep: u8 = if i % per_line == per_line - 1 {
                10u8
            } else {
                32u8
            };
            let rest = armor_encode_from(bytes, per_line, i + 1);
            assert(s == tok + seq![sep] + rest);
            assert(forall|x: int| 0 <= x < 3 ==> s[x] == #[trigger] tok[x]);
            assert(s[3] == sep && is_sep(sep));
            assert(s.skip(0) =~= s);
            lemma_tokens_split_run(s, 0, 3);
            assert(s.subrange(0, 3) =~= tok);
            let tail = seq![sep] + rest;
            assert(s.skip(3) =~= tail);
            assert(tail.skip(0) =~= tail);
            assert(tail.skip(1) =~= rest);
            lemma_tokens_skip_sep(tail, 0);
            assert(tokens(s) == seq![tok] + tokens(rest));
            lemma_armor_decode_encode_from(bytes, per_line, i + 1);
            lemma_decode_tokens_append(seq![tok], tokens(rest));
            assert(seq![b] + bytes.skip(i + 1) =~= bytes.skip(i));
        }
    }
}

/// Decoding the armor text of any byte sequence, at any line width,
/// recovers the bytes exactly.
pub proof fn lemma_armor_roundtrip(bytes: Seq<u8>, per_line: int)
    requires
        per_line >= 1,
    ensures
        armor_decode_spec(armor_encode_spec(bytes, per_line)) == Ok::<Seq<u8>, Seq<char>>(bytes),
{
    lemma_armor_decode_encode_from(bytes, per_line, 0);
    assert(bytes.skip(0) =~= bytes);
}

/// `t` begins with `p`.
pub open spec fn starts_with_bytes(t: Seq<u8>, p: Seq<u8>) -> bool {
    t.len() >= p.len() && t.take(p.len() as int) == p
}

/// `t` ends with `q`.
pub open spec fn ends_with_bytes(t: Seq<u8>, q: Seq<u8>) -> bool {
    t.len() >= q.len() && t.skip(t.len() - q.len()) == q
}

/// Decode wrapped armor: demand the literal prefix and suffix, then decode
/// what stands between them.
pub open spec fn armor_decode_wrapped_spec(t: Seq<u8>, p: Seq<u8>, q: Seq<u8>) -> Result<
    Seq<u8>,
    Seq<char>,
> {
    if !starts_with_bytes(t, p) {
        Err("missing prefix"@)
    } else if t.len() < p.len() + q.len() || !ends_with_bytes(t, q) {
        Err("missing suffix"@)
    } else {
        armor_decode_spec(t.subrange(p.len() as int, t.len() - q.len()))
    }
}

/// Encode a slice of bytes into armor text: each byte as a zero-padded
/// 3-digit decimal value, `per_line` tokens per space-separated line, with
/// no trailing space or line break.
pub fn encode_bytes_ascii(input: &[u8], per_line: usize) -> (r: String)
    requires
        per_line >= 1,
    ensures
        encode_utf8(r@) == armor_encode_spec(input@, per_line as int),
{
    let n = input.len();
    let mut outv: Vec<u8> = Vec::new();
    let mut i: usize = 0;
    while i < n
        invariant
            0 <= i <= n,
            n == input@.len(),
            per_line >= 1,
            outv@ + armor_encode_from(input@, per_line as int, i as int) == armor_encode_spec(
                input@,
                per_line as int,
            ),
            forall|x: int| 0 <= x < outv@.len() ==> is_leading_byte_width_1(#[trigger] outv@[x]),
        decreases n - i,
    {
        let ghost prev = outv@;
        let b = input[i];
        proof {
            assert(b / 100 <= 2 && (b / 10) % 10 <= 9 && b % 10 <= 9) by (bit_vector);
        }
        outv.push(48 + b / 100);
        outv.push(48 + (b / 10) % 10);
        outv.push(48 + b % 10);
        if i + 1 < n {
            if (i % per_line) + 1 < per_line {
                outv.push(32);
            } else {
                proof {
                    assert(i as int % per_line as int == per_line as int - 1);
                }
                outv.push(10);
            }
            proof {
                assert(outv@ =~= prev + token_of(b) + seq![
                    if i as int % per_line as int == per_line as int - 1 {
                        10u8
                    } else {
                        32u8
                    },
                ]);
            }
        } else {
            proof {
                assert(outv@ =~= prev + token_of(b));
            }
        }
        proof {
            assert(outv@ + armor_encode_from(input@, per_line as int, i + 1) =~= prev
                + armor_encode_from(input@, per_line as int, i as int));
        }
        i += 1;
    }
    proof {
        assert(armor_encode_from(input@, per_line as int, n as int) =~= Seq::<u8>::empty());
        assert(outv@ =~= armor_encode_spec(input@, per_line as int));
        assert(partial_valid_utf8(outv@, 0)) by {
            assert(outv@.subrange(0, 0) =~= Seq::<u8>::empty());
        }
        partial_valid_utf8_extend_ascii_block(outv@, 0, outv@.len() as int);
        assert(outv@.subrange(0, outv@.len() as int) =~= outv@);
    }
    let ghost encoded = outv@;
    let r = string_from_utf8(outv);
    proof {
        decode_utf8_encode_utf8(encoded);
    }
    match r {
        Ok(t) => t,
        Err(_) => {
            proof {
                assert(false);
            }
            String::new()
        },
    }
}

/// Encode into armor text and wrap it with a literal prefix and suffix.
pub fn encode_bytes_ascii_wrapped(data: &[u8], per_line: usize, prefix: &str, suffix: &str) -> (r:
    String)
    requires
        per_line >= 1,
    ensures
        encode_utf8(r@) == prefix.spec_bytes() + armor_encode_spec(data@, per_line as int)
            + suffix.spec_bytes(),
{
    let body = encode_bytes_ascii(data, per_line);
    let mut s = String::new();
    s.append(prefix);
    s.append(body.as_str());
    s.append(suffix);
    proof {
        lemma_encode_utf8_concat(prefix@, body@);
        lemma_encode_utf8_concat(prefix@ + body@, suffix@);
        assert((prefix@ + body@) + suffix@ =~= s@);
    }
    s
}

/// `encode_utf8` distributes over concatenation of character sequences.
proof fn lemma_encode_utf8_concat(a: Seq<char>, b: Seq<char>)
    ensures
        encode_utf8(a + b) == encode_utf8(a) + encode_utf8(b),
    decreases a.len(),
{
    if a.len() == 0 {
        assert(a + b =~= b);
        assert(encode_utf8(a) + encode_utf8(b) =~= encode_utf8(b));
    } else {
        lemma_encode_utf8_concat(a.drop_first(), b);
        assert((a + b).drop_first() =~= a.drop_first() + b);
        assert((a + b)[0] == a[0]);
        assert(encode_utf8(a) + encode_utf8(b) =~= vstd::utf8::encode_scalar(a[0] as u32) + (
        encode_utf8(a.drop_first()) + encode_utf8(b)));
    }
}

/// Decode armor text held in a byte slice.
fn decode_ascii_bytes(bytes: &[u8]) -> (r: Result<Vec<u8>, &'static str>)
    ensures
        armor_decode_spec(bytes@) matches Ok(v) ==> (r matches Ok(rv) && rv@ == v),
        armor_decode_spec(bytes@) matches Err(m) ==> (r matches Err(e) && e@ == m),
{
    let ghost s = bytes@;
    let n = bytes.len();
    let mut out: Vec<u8> = Vec::new();
    let ghost mut consumed: Seq<Seq<u8>> = Seq::empty();
    proof {
        assert(s.skip(0) =~= s);
        assert(Seq::<Seq<u8>>::empty() + tokens(s) =~= tokens(s));
    }
    let mut i: usize = 0;
    while i < n
        invariant
            0 <= i <= n,
            n == s.len(),
            bytes@ == s,
            tokens(s) == consumed + tokens(s.skip(i as int)),
            armor_decode_tokens(consumed) == Ok::<Seq<u8>, Seq<char>>(out@),
        decreases n - i,
    {
        let c = bytes[i];
        if c == 32 || c == 10 {
            proof {
                lemma_tokens_skip_sep(s, i as int);
            }
            i += 1;
        } else {
            let start = i;
            let mut j = i;
            while j < n && !(bytes[j] == 32 || bytes[j] == 10)
                invariant
                    0 <= start <= j <= n,
                    n == s.len(),
                    bytes@ == s,
                    forall|x: int| start <= x < j ==> !is_sep(#[trigger] s[x]),
                decreases n - j,
            {
                j += 1;
            }
            let ghost tok = s.subrange(start as int, j as int);
            proof {
                lemma_tokens_split_run(s, start as int, j as int);
                assert(tokens(s) == consumed + (seq![tok] + tokens(s.skip(j as int))));
            }
            if j - start != 3 {
                proof {
                    lemma_decode_tokens_append(consumed, seq![tok] + tokens(s.skip(j as int)));
                    assert((seq![tok] + tokens(s.skip(j as int)))[0] == tok);
                    assert(token_error(tok) == Some("token is not 3 characters"@));
                }
                return Err("token is not 3 characters");
            }
            let d0 = bytes[start];
            let d1 = bytes[start + 1];
            let d2 = bytes[start + 2];
            proof {
                assert(tok.len() == 3 && tok[0] == d0 && tok[1] == d1 && tok[2] == d2);
            }
            if !(48 <= d0 && d0 <= 57 && 48 <= d1 && d1 <= 57 && 48 <= d2 && d2 <= 57) {
                proof {
                    lemma_decode_tokens_append(consumed, seq![tok] + tokens(s.skip(j as int)));
                    assert((seq![tok] + tokens(s.skip(j as int)))[0] == tok);
                    assert(token_error(tok) == Some("invalid decimal number"@));
                }
                return Err("invalid decimal number");
            }
            let val: u32 = 100 * ((d0 - 48) as u32) + 10 * ((d1 - 48) as u32) + ((d2 - 48) as u32);
            proof {
                assert(val == token_val(tok));
            }
            if val > 255 {
                proof {
                    lemma_decode_tokens_append(consumed, seq![tok] + tokens(s.skip(j as int)));
                    assert((seq![tok] + tokens(s.skip(j as int)))[0] == tok);
                    assert(token_error(tok) == Some("value out of range 0–255"@));
                }
                return Err("value out of range 0–255");
            }
            let ghost prev_out = out@;
            out.push(val as u8);
            proof {
                assert(token_error(tok) is None);
                lemma_decode_tokens_append(consumed, seq![tok]);
                assert(armor_decode_tokens(seq![tok]) == Ok::<Seq<u8>, Seq<char>>(seq![token_val(
                    tok,
                ) as u8])) by {
                    reveal_with_fuel(armor_decode_tokens, 2);
                    assert(seq![tok].drop_first() =~= Seq::<Seq<u8>>::empty());
                    assert(seq![token_val(tok) as u8] + Seq::<u8>::empty() =~= seq![token_val(
                        tok,
                    ) as u8]);
                }
                assert(prev_out + seq![token_val(tok) as u8] =~= out@);
                consumed = consumed + seq![tok];
                assert(tokens(s) == consumed + tokens(s.skip(j as int))) by {
                    assert((consumed + seq![tok]) + tokens(s.skip(j as int)) =~= consumed + (
                    seq![tok] + tokens(s.skip(j as int))));
                }
            }
            i = j;
        }
    }
    proof {
        assert(s.skip(n as int) =~= Seq::<u8>::empty());
        assert(tokens(s.skip(n as int)) =~= Seq::<Seq<u8>>::empty());
        assert(consumed + Seq::<Seq<u8>>::empty() =~= consumed);
    }
    Ok(out)
}

/// Decode armor text back into raw bytes.  Any number of lines is
/// accepted; every token must be exactly three digits with a value of at
/// most 255.
pub fn decode_bytes_ascii(input: &str) -> (r: Result<Vec<u8>, &'static str>)
    ensures
        armor_decode_spec(input.spec_bytes()) matches Ok(v) ==> (r matches Ok(rv) && rv@ == v),
        armor_decode_spec(input.spec_bytes()) matches Err(m) ==> (r matches Err(e) && e@ == m),
{
    decode_ascii_bytes(input.as_bytes())
}

/// `t` begins with `p`, compared bytewise.
fn slice_starts_with(t: &[u8], p: &[u8]) -> (r: bool)
    ensures
        r == starts_with_bytes(t@, p@),
{
    if t.len() < p.len() {
        return false;
    }
    let mut i: usize = 0;
    while i < p.len()
        invariant
            0 <= i <= p@.len() <= t@.len(),
            forall|x: int| 0 <= x < i ==> t@[x] == p@[x],
        decreases p@.len() - i,
    {
        if t[i] != p[i] {
            assert(t@.take(p@.len() as int)[i as int] != p@[i as int]);
            return false;
        }
        i += 1;
    }
    proof {
        assert(t@.take(p@.len() as int) =~= p@);
    }
    true
}

/// `t` ends with `q`, compared bytewise.
#[verifier::loop_isolation(false)]
fn slice_ends_with(t: &[u8], q: &[u8]) -> (r: bool)
    ensures
        r == ends_with_bytes(t@, q@),
{
    if t.len() < q.len() {
        return false;
    }
    let off = t.len() - q.len();
    let mut i: usize = 0;
    while i < q.len()
        invariant
            0 <= i <= q@.len() <= t@.len(),
            off == t@.len() - q@.len(),
            forall|x: int| 0 <= x < i ==> t@[off + x] == q@[x],
        decreases q@.len() - i,
    {
        if t[off + i] != q[i] {
            assert(t@.skip(off as int)[i as int] != q@[i as int]);
            return false;
        }
        i += 1;
    }
    proof {
        assert(t@.skip(off as int) =~= q@);
    }
    true
}

/// Strip a literal prefix and suffix, then decode the armor text between
/// them.  A text too short to hold both delimiters side by side counts as
/// missing the suffix.
pub fn decode_bytes_ascii_wrapped(text: &str, prefix: &str, suffix: &str) -> (r: Result<
    Vec<u8>,
    &'static str,
>)
    ensures
        armor_decode_wrapped_spec(text.spec_bytes(), prefix.spec_bytes(), suffix.spec_bytes())
            matches Ok(v) ==> (r matches Ok(rv) && rv@ == v),
        armor_decode_wrapped_spec(text.spec_bytes(), prefix.spec_bytes(), suffix.spec_bytes())
            matches Err(m) ==> (r matches Err(e) && e@ == m),
{
    let t: &[u8] = text.as_bytes();
    let p: &[u8] = prefix.as_bytes();
    let q: &[u8] = suffix.as_bytes();
    if !slice_starts_with(t, p) {
        return Err("missing prefix");
    }
    if t.len() - p.len() < q.len() || !slice_ends_with(t, q) {
        return Err("missing suffix");
    }
    let inner: &[u8] = vstd::slice::slice_subrange(t, p.len(), t.len() - q.len());
    decode_ascii_bytes(inner)
}

} // verus!
