//! The fused recursive-descent reader and encoder.
//!
//! Each `parse_*` function consumes one construct from the codepoint
//! sequence, appends its MessagePack encoding to the given sink, and returns
//! the new cursor position together with the (ghost) value it recognized.
//! Containers encode their body into a private scratch sink and prepend the
//! correct header once their element count is known.
//!
//! Number tokens that fail every integer trial are encoded as 64-bit floats
//! from the caller-supplied table of bit patterns `floats`, consumed in
//! document order; when the table is exhausted the reader stops with
//! [`JsonError::NeedFloat`], naming the token, so the caller can extend the
//! table and retry.
//!
//! What the contracts promise: whenever a function succeeds, the consumed
//! codepoints, the consumed float entries, and the appended bytes are fixed
//! exactly (`parses_to` and `msgpack_bytes`), and on failure the sink is
//! left as stated.  Success itself is owed — a conforming implementation
//! must return `Ok` — whenever the text at the cursor renders any value
//! within the 32-bit size ceilings (`within_limits`) with its float bit
//! patterns supplied: each function's final contract clause says that its
//! result then matches every such rendering exactly, which also makes the
//! grammar relation deterministic and the output a function of the input.

use vstd::prelude::*;
use crate::value::{JsonVal, Member};
use crate::encoding::{
    be2, be4, be8, uint_bytes, nint_bytes, str_encoding, arr_header, map_header, msgpack_bytes,
    encode_seq, encode_members, lemma_encode_seq_push, lemma_encode_members_push,
};
use crate::grammar::{
    is_ws, is_term_char, is_digit, is_num_start, ws_end, token_end, lemma_ws_end, lemma_token_end,
    digits_val, all_digits, is_uint_token, is_nint_token, int_token_classified, is_float_token,
    is_hex_digit, hex_digit_val, hex4_val, utf8_char, simple_escape_code, str_scan, str_scan_cont,
    value_sep_ok, sep_end, parses_to, elems_upto, member_parses_to, members_upto, boundary,
    is_value_start, scalar_owed, scalar_end, member_scalar_end, member_owed, value_owed,
    within_limits, member_within, lemma_ws_end_idem, lemma_number_token_maximal,
    lemma_parses_first_char, lemma_sep_end_fix, lemma_elems_upto_anchor,
    lemma_members_upto_anchor, lemma_elems_peel, lemma_members_peel, lemma_member_witness,
};

verus! {

/// Why a document was rejected.  Offsets are codepoint positions into the
/// input.
#[derive(Debug, Clone, Copy, PartialEq, Eq, Structural)]
pub enum JsonError {
    /// The document ended where more input was required.
    UnexpectedEnd { at: usize },
    /// A codepoint that no grammar rule allows at this position.
    UnexpectedChar { at: usize },
    /// A literal keyword (`false`, `null`, `true`) was misspelled.
    BadKeyword { at: usize },
    /// A malformed escape sequence inside a string.
    BadEscape { at: usize },
    /// A number token that is neither an integer nor a supplied float.
    BadNumber { at: usize },
    /// A number token at `start..end` needs a 64-bit float bit pattern that
    /// the `floats` table does not yet hold.
    NeedFloat { start: usize, end: usize },
    /// A string or container over the 32-bit length ceiling.
    TooLong { at: usize },
}

/// Consumes a maximal run of whitespace, returning the new cursor position.
pub fn skip_ws(s: &Vec<char>, pos: usize) -> (r: usize)
    requires
        pos <= s@.len(),
    ensures
        r == ws_end(s@, pos as int),
        pos <= r <= s@.len(),
{
    let mut p = pos;
    while p < s.len() && is_ws_char(s[p])
        invariant
            pos <= p <= s@.len(),
            ws_end(s@, pos as int) == ws_end(s@, p as int),
        decreases s@.len() - p,
    {
        p = p + 1;
    }
    proof {
        lemma_ws_end(s@, pos as int);
    }
    p
}

/// Whether `c` is JSON whitespace.
fn is_ws_char(c: char) -> (r: bool)
    ensures
        r == is_ws(c),
{
    c == ' ' || c == '\u{0009}' || c == '\u{000a}' || c == '\u{000d}'
}

/// Whether `c` terminates a number token.
fn is_term(c: char) -> (r: bool)
    ensures
        r == is_term_char(c),
{
    is_ws_char(c) || c == '[' || c == ']' || c == '{' || c == '}' || c == ':' || c == ','
}

/// Appends the two big-endian bytes of `n`.
fn push_be2(out: &mut Vec<u8>, n: u16)
    ensures
        final(out)@ == old(out)@ + be2(n),
{
    out.push(#[verifier::truncate] ((n >> 8) as u8));
    out.push(#[verifier::truncate] (n as u8));
    proof {
        assert(out@ =~= old(out)@ + be2(n));
    }
}

/// Appends the four big-endian bytes of `n`.
fn push_be4(out: &mut Vec<u8>, n: u32)
    ensures
        final(out)@ == old(out)@ + be4(n),
{
    out.push(#[verifier::truncate] ((n >> 24) as u8));
    out.push(#[verifier::truncate] ((n >> 16) as u8));
    out.push(#[verifier::truncate] ((n >> 8) as u8));
    out.push(#[verifier::truncate] (n as u8));
    proof {
        assert(out@ =~= old(out)@ + be4(n));
    }
}

/// Appends the eight big-endian bytes of `n`.
fn push_be8(out: &mut Vec<u8>, n: u64)
    ensures
        final(out)@ == old(out)@ + be8(n),
{
    out.push(#[verifier::truncate] ((n >> 56) as u8));
    out.push(#[verifier::truncate] ((n >> 48) as u8));
    out.push(#[verifier::truncate] ((n >> 40) as u8));
    out.push(#[verifier::truncate] ((n >> 32) as u8));
    out.push(#[verifier::truncate] ((n >> 24) as u8));
    out.push(#[verifier::truncate] ((n >> 16) as u8));
    out.push(#[verifier::truncate] ((n >> 8) as u8));
    out.push(#[verifier::truncate] (n as u8));
    proof {
        assert(out@ =~= old(out)@ + be8(n));
    }
}

/// Appends the minimal unsigned encoding of `n`.
fn emit_uint(out: &mut Vec<u8>, n: u64)
    ensures
        final(out)@ == old(out)@ + uint_bytes(n),
{
    if n < 0x80 {
        out.push(#[verifier::truncate] (n as u8));
        proof {
            assert(out@ =~= old(out)@ + uint_bytes(n));
        }
    } else if n <= 0xff {
        out.push(0xccu8);
        out.push(#[verifier::truncate] (n as u8));
        proof {
            assert(out@ =~= old(out)@ + uint_bytes(n));
        }
    } else if n <= 0xffff {
        out.push(0xcdu8);
        push_be2(out, #[verifier::truncate] (n as u16));
        proof {
            assert(out@ =~= old(out)@ + uint_bytes(n));
        }
    } else if n <= 0xffff_ffff {
        out.push(0xceu8);
        push_be4(out, #[verifier::truncate] (n as u32));
        proof {
            assert(out@ =~= old(out)@ + uint_bytes(n));
        }
    } else {
        out.push(0xcfu8);
        push_be8(out, n);
        proof {
            assert(out@ =~= old(out)@ + uint_bytes(n));
        }
    }
}

/// Appends the minimal signed encoding of the negative integer `-m`.
fn emit_nint(out: &mut Vec<u8>, m: u64)
    requires
        1 <= m <= 0x8000_0000_0000_0000u64,
    ensures
        final(out)@ == old(out)@ + nint_bytes(m),
{
    if m <= 0x80 {
        out.push(0xd0u8);
        out.push((0x100 - m) as u8);
        proof {
            assert(out@ =~= old(out)@ + nint_bytes(m));
        }
    } else if m <= 0x8000 {
        out.push(0xd1u8);
        push_be2(out, (0x1_0000 - m) as u16);
        proof {
            assert(out@ =~= old(out)@ + nint_bytes(m));
        }
    } else if m <= 0x8000_0000 {
        out.push(0xd2u8);
        push_be4(out, (0x1_0000_0000 - m) as u32);
        proof {
            assert(out@ =~= old(out)@ + nint_bytes(m));
        }
    } else {
        out.push(0xd3u8);
        push_be8(out, u64::MAX - m + 1);
        proof {
            assert(out@ =~= old(out)@ + nint_bytes(m));
        }
    }
}

/// Digits may only grow the value they denote.
proof fn lemma_digits_val_grows(s: Seq<char>, i: int, mid: int, j: int)
    requires
        i <= mid <= j,
        all_digits(s, i, j),
    ensures
        digits_val(s, i, j) >= digits_val(s, i, mid) >= 0,
    decreases j - mid,
{
    if mid == j {
        lemma_digits_val_nonneg(s, i, j);
    } else {
        lemma_digits_val_grows(s, i, mid, j - 1);
        lemma_digits_val_nonneg(s, i, mid);
    }
}

proof fn lemma_digits_val_nonneg(s: Seq<char>, i: int, j: int)
    requires
        all_digits(s, i, j),
    ensures
        digits_val(s, i, j) >= 0,
    decreases j - i,
{
    if j > i {
        lemma_digits_val_nonneg(s, i, j - 1);
    }
}

/// Trial-parses `s[start..end)` as an unsigned decimal integer, exactly as
/// a digit-run trial: all codepoints must be digits and the value must fit
/// in 64 bits.
fn parse_uint(s: &Vec<char>, start: usize, end: usize) -> (r: Option<u64>)
    requires
        start <= end <= s@.len(),
    ensures
        match r {
            Some(n) => start < end && all_digits(s@, start as int, end as int) && digits_val(
                s@,
                start as int,
                end as int,
            ) == n,
            None => !(start < end && all_digits(s@, start as int, end as int) && digits_val(
                s@,
                start as int,
                end as int,
            ) <= u64::MAX),
        },
{
    if start == end {
        return None;
    }
    let mut acc: u64 = 0;
    let mut i = start;
    while i < end
        invariant
            start <= i <= end <= s@.len(),
            all_digits(s@, start as int, i as int),
            acc == digits_val(s@, start as int, i as int),
        decreases end - i,
    {
        let c = s[i];
        let u = c as u32;
        if !(0x30 <= u && u <= 0x39) {
            proof {
                assert(!is_digit(s@[i as int]));
                assert(!all_digits(s@, start as int, end as int));
            }
            return None;
        }
        let d = (u - 0x30) as u64;
        if acc > (u64::MAX - d) / 10 {
            proof {
                let prefix = digits_val(s@, start as int, i as int + 1);
                assert(prefix == acc * 10 + d);
                assert(acc * 10 + d > u64::MAX) by (nonlinear_arith)
                    requires
                        acc > (u64::MAX - d) / 10,
                        d <= 9,
                ;
                if all_digits(s@, start as int, end as int) {
                    lemma_digits_val_grows(s@, start as int, i as int + 1, end as int);
                }
            }
            return None;
        }
        acc = acc * 10 + d;
        i = i + 1;
    }
    Some(acc)
}

/// Consumes the keyword `false` and emits its single fixed byte.
pub fn parse_false(s: &Vec<char>, pos: usize, out: &mut Vec<u8>) -> (r: Result<usize, JsonError>)
    requires
        pos <= s@.len(),
    ensures
        match r {
            Ok(p2) => p2 == pos + 5 && final(out)@ == old(out)@ + seq![0xc2u8],
            Err(_) => final(out)@ == old(out)@,
        },
        (r is Ok) <==> (pos + 5 <= s@.len() && s@[pos as int] == 'f' && s@[pos as int + 1] == 'a'
            && s@[pos as int + 2] == 'l' && s@[pos as int + 3] == 's' && s@[pos as int + 4] == 'e'),
{
    if s.len() - pos < 5 {
        return Err(JsonError::UnexpectedEnd { at: s.len() });
    }
    if s[pos] == 'f' && s[pos + 1] == 'a' && s[pos + 2] == 'l' && s[pos + 3] == 's' && s[pos + 4]
        == 'e' {
        out.push(0xc2u8);
        proof {
            assert(out@ =~= old(out)@ + seq![0xc2u8]);
        }
        Ok(pos + 5)
    } else {
        Err(JsonError::BadKeyword { at: pos })
    }
}

/// Consumes the keyword `null` and emits its single fixed byte.
pub fn parse_null(s: &Vec<char>, pos: usize, out: &mut Vec<u8>) -> (r: Result<usize, JsonError>)
    requires
        pos <= s@.len(),
    ensures
        match r {
            Ok(p2) => p2 == pos + 4 && final(out)@ == old(out)@ + seq![0xc0u8],
            Err(_) => final(out)@ == old(out)@,
        },
        (r is Ok) <==> (pos + 4 <= s@.len() && s@[pos as int] == 'n' && s@[pos as int + 1] == 'u'
            && s@[pos as int + 2] == 'l' && s@[pos as int + 3] == 'l'),
{
    if s.len() - pos < 4 {
        return Err(JsonError::UnexpectedEnd { at: s.len() });
    }
    if s[pos] == 'n' && s[pos + 1] == 'u' && s[pos + 2] == 'l' && s[pos + 3] == 'l' {
        out.push(0xc0u8);
        proof {
            assert(out@ =~= old(out)@ + seq![0xc0u8]);
        }
        Ok(pos + 4)
    } else {
        Err(JsonError::BadKeyword { at: pos })
    }
}

/// Consumes the keyword `true` and emits its single fixed byte.
pub fn parse_true(s: &Vec<char>, pos: usize, out: &mut Vec<u8>) -> (r: Result<usize, JsonError>)
    requires
        pos <= s@.len(),
    ensures
        match r {
            Ok(p2) => p2 == pos + 4 && final(out)@ == old(out)@ + seq![0xc3u8],
            Err(_) => final(out)@ == old(out)@,
        },
        (r is Ok) <==> (pos + 4 <= s@.len() && s@[pos as int] == 't' && s@[pos as int + 1] == 'r'
            && s@[pos as int + 2] == 'u' && s@[pos as int + 3] == 'e'),
{
    if s.len() - pos < 4 {
        return Err(JsonError::UnexpectedEnd { at: s.len() });
    }
    if s[pos] == 't' && s[pos + 1] == 'r' && s[pos + 2] == 'u' && s[pos + 3] == 'e' {
        out.push(0xc3u8);
        proof {
            assert(out@ =~= old(out)@ + seq![0xc3u8]);
        }
        Ok(pos + 4)
    } else {
        Err(JsonError::BadKeyword { at: pos })
    }
}

/// Consumes one number token and emits its minimal encoding, trying the
/// integer forms first and falling back to a supplied 64-bit float bit
/// pattern.  On success the whole maximal token is consumed.
pub fn parse_number(
    s: &Vec<char>,
    pos: usize,
    floats: &Vec<Option<u64>>,
    fpos: usize,
    out: &mut Vec<u8>,
) -> (r: Result<(usize, usize, Ghost<JsonVal>), JsonError>)
    requires
        pos < s@.len(),
        is_num_start(s@[pos as int]),
        fpos <= floats@.len(),
    ensures
        match r {
            Ok((p2, f2, g)) => {
                &&& p2 == token_end(s@, pos as int)
                &&& pos < p2 <= s@.len()
                &&& fpos <= f2 <= floats@.len()
                &&& parses_to(s@, pos as int, p2 as int, floats@, fpos as int, f2 as int, g@)
                &&& g@.is_number()
                &&& final(out)@ == old(out)@ + msgpack_bytes(g@)
            },
            Err(_) => final(out)@ == old(out)@,
        },
        int_token_classified(s@, pos as int, token_end(s@, pos as int)) ==> r is Ok,
        (!int_token_classified(s@, pos as int, token_end(s@, pos as int)) && fpos < floats@.len()
            && floats@[fpos as int] is Some) ==> r is Ok,
        (!int_token_classified(s@, pos as int, token_end(s@, pos as int)) && fpos < floats@.len()
            && floats@[fpos as int] is None) ==> r == Err::<(usize, usize, Ghost<JsonVal>),
            JsonError,
        >(JsonError::BadNumber { at: pos }),
        (!int_token_classified(s@, pos as int, token_end(s@, pos as int)) && fpos
            >= floats@.len()) ==> r == Err::<(usize, usize, Ghost<JsonVal>), JsonError>(
            JsonError::NeedFloat { start: pos, end: token_end(s@, pos as int) as usize },
        ),
        forall|j: int, fj: int, vw: JsonVal|
            (#[trigger] parses_to(s@, pos as int, j, floats@, fpos as int, fj, vw)
                && value_sep_ok(s@, j, vw) && vw.is_number()) ==> match r {
                Ok((p2, f2, g)) => p2 == j && f2 == fj && g@ == vw,
                Err(_) => false,
            },
{
    let ghost i0 = pos as int;
    let mut p = pos;
    while p < s.len() && !is_term(s[p])
        invariant
            pos <= p <= s@.len(),
            token_end(s@, i0) == token_end(s@, p as int),
        decreases s@.len() - p,
    {
        p = p + 1;
    }
    proof {
        lemma_token_end(s@, i0);
        assert(p == token_end(s@, i0));
    }
    let te = p;
    let ghost tj = te as int;
    // The first codepoint is `-` or a digit, neither a terminator, so the
    // token is non-empty.
    assert(pos < te);
    if s[pos] != '-' {
        match parse_uint(s, pos, te) {
            Some(n) => {
                emit_uint(out, n);
                let ghost v = JsonVal::UInt(n);
                proof {
                    assert(is_uint_token(s@, i0, tj, n));
                    assert(parses_to(s@, i0, tj, floats@, fpos as int, fpos as int, v));
                    assert forall|j: int, fj: int, vw: JsonVal|
                        #[trigger] parses_to(s@, i0, j, floats@, fpos as int, fj, vw)
                            && value_sep_ok(s@, j, vw) && vw.is_number() implies j == tj && fj
                        == fpos as int && vw == v by {
                        lemma_number_token_maximal(s@, i0, j, floats@, fpos as int, fj, vw);
                    }
                }
                return Ok((te, fpos, Ghost(v)));
            },
            None => {
                proof {
                    // The token starts with a digit, so only the unsigned
                    // trial could have classified it, and that one failed.
                    assert(!int_token_classified(s@, i0, tj));
                }
                return encode_float_token(s, pos, te, floats, fpos, out);
            },
        }
    } else {
        match parse_uint(s, pos + 1, te) {
            Some(m) => {
                if m == 0 {
                    out.push(0x00u8);
                    let ghost v = JsonVal::UInt(0);
                    proof {
                        assert(out@ =~= old(out)@ + msgpack_bytes(v));
                        assert(is_uint_token(s@, i0, tj, 0));
                        assert(parses_to(s@, i0, tj, floats@, fpos as int, fpos as int, v));
                    }
                    return Ok((te, fpos, Ghost(v)));
                } else if m <= 0x8000_0000_0000_0000u64 {
                    emit_nint(out, m);
                    let ghost v = JsonVal::NInt(m);
                    proof {
                        assert(is_nint_token(s@, i0, tj, m));
                        assert(parses_to(s@, i0, tj, floats@, fpos as int, fpos as int, v));
                    }
                    return Ok((te, fpos, Ghost(v)));
                } else {
                    proof {
                        assert(!is_digit(s@[i0]));
                        assert(!all_digits(s@, i0, tj));
                        assert(!int_token_classified(s@, i0, tj));
                    }
                    return encode_float_token(s, pos, te, floats, fpos, out);
                }
            },
            None => {
                proof {
                    assert(!is_digit(s@[i0]));
                    assert(!all_digits(s@, i0, tj));
                    assert(!int_token_classified(s@, i0, tj));
                }
                return encode_float_token(s, pos, te, floats, fpos, out);
            },
        }
    }
}

/// Encodes the number token `s[pos..te)` as a 64-bit float from the
/// supplied table, once every integer trial has failed.
fn encode_float_token(
    s: &Vec<char>,
    pos: usize,
    te: usize,
    floats: &Vec<Option<u64>>,
    fpos: usize,
    out: &mut Vec<u8>,
) -> (r: Result<(usize, usize, Ghost<JsonVal>), JsonError>)
    requires
        pos < te <= s@.len(),
        te == token_end(s@, pos as int),
        is_num_start(s@[pos as int]),
        !int_token_classified(s@, pos as int, te as int),
        fpos <= floats@.len(),
    ensures
        match r {
            Ok((p2, f2, g)) => {
                &&& p2 == te
                &&& fpos <= f2 <= floats@.len()
                &&& parses_to(s@, pos as int, p2 as int, floats@, fpos as int, f2 as int, g@)
                &&& g@.is_number()
                &&& final(out)@ == old(out)@ + msgpack_bytes(g@)
            },
            Err(_) => final(out)@ == old(out)@,
        },
        (fpos < floats@.len() && floats@[fpos as int] is Some) ==> r is Ok,
        (fpos < floats@.len() && floats@[fpos as int] is None) ==> r == Err::<(usize, usize,
            Ghost<JsonVal>), JsonError>(JsonError::BadNumber { at: pos }),
        fpos >= floats@.len() ==> r == Err::<(usize, usize, Ghost<JsonVal>), JsonError>(
            JsonError::NeedFloat { start: pos, end: te },
        ),
        forall|j: int, fj: int, vw: JsonVal|
            (#[trigger] parses_to(s@, pos as int, j, floats@, fpos as int, fj, vw)
                && value_sep_ok(s@, j, vw) && vw.is_number()) ==> match r {
                Ok((p2, f2, g)) => p2 == j && f2 == fj && g@ == vw,
                Err(_) => false,
            },
{
    proof {
        lemma_token_end(s@, pos as int);
        assert(is_float_token(s@, pos as int, te as int));
        assert forall|j: int, fj: int, vw: JsonVal|
            #[trigger] parses_to(s@, pos as int, j, floats@, fpos as int, fj, vw)
                && value_sep_ok(s@, j, vw) && vw.is_number() implies j == te && fj == fpos as int
            + 1 && vw is Float && (fpos as int) < floats@.len() && floats@[fpos as int]
            == Some(vw->Float_0) by {
            lemma_number_token_maximal(s@, pos as int, j, floats@, fpos as int, fj, vw);
            match vw {
                JsonVal::UInt(nw) => {
                    assert(is_uint_token(s@, pos as int, te as int, nw));
                    assert(int_token_classified(s@, pos as int, te as int));
                },
                JsonVal::NInt(mw) => {
                    assert(int_token_classified(s@, pos as int, te as int));
                },
                _ => {},
            }
        }
    }
    if fpos >= floats.len() {
        return Err(JsonError::NeedFloat { start: pos, end: te });
    }
    match floats[fpos] {
        None => Err(JsonError::BadNumber { at: pos }),
        Some(bits) => {
            out.push(0xcbu8);
            push_be8(out, bits);
            let ghost v = JsonVal::Float(bits);
            proof {
                assert(out@ =~= old(out)@ + msgpack_bytes(v));
                assert(parses_to(s@, pos as int, te as int, floats@, fpos as int, fpos as int + 1, v));
            }
            Ok((te, fpos + 1, Ghost(v)))
        },
    }
}

/// Appends the UTF-8 bytes of the Unicode scalar value `u`.
fn push_utf8(out: &mut Vec<u8>, u: u32)
    ensures
        final(out)@ == old(out)@ + utf8_char(u),
{
    if u < 0x80 {
        out.push(#[verifier::truncate] (u as u8));
    } else if u < 0x800 {
        out.push(#[verifier::truncate] ((0xc0 | (u >> 6)) as u8));
        out.push(#[verifier::truncate] ((0x80 | (u & 0x3f)) as u8));
    } else if u < 0x1_0000 {
        out.push(#[verifier::truncate] ((0xe0 | (u >> 12)) as u8));
        out.push(#[verifier::truncate] ((0x80 | ((u >> 6) & 0x3f)) as u8));
        out.push(#[verifier::truncate] ((0x80 | (u & 0x3f)) as u8));
    } else {
        out.push(#[verifier::truncate] ((0xf0 | (u >> 18)) as u8));
        out.push(#[verifier::truncate] ((0x80 | ((u >> 12) & 0x3f)) as u8));
        out.push(#[verifier::truncate] ((0x80 | ((u >> 6) & 0x3f)) as u8));
        out.push(#[verifier::truncate] ((0x80 | (u & 0x3f)) as u8));
    }
    proof {
        assert(out@ =~= old(out)@ + utf8_char(u));
    }
}

/// The value of one hex digit, or `None` for any other codepoint.
fn hex_val(c: char) -> (r: Option<u32>)
    ensures
        match r {
            Some(v) => is_hex_digit(c) && v == hex_digit_val(c),
            None => !is_hex_digit(c),
        },
{
    let u = c as u32;
    if 0x30 <= u && u <= 0x39 {
        Some(u - 0x30)
    } else if 0x41 <= u && u <= 0x46 {
        Some(u - 0x41 + 10)
    } else if 0x61 <= u && u <= 0x66 {
        Some(u - 0x61 + 10)
    } else {
        None
    }
}

/// Consumes one escape sequence starting at the backslash `p`, appending
/// the codepoint it denotes (as UTF-8) to `content`.
fn parse_escape(s: &Vec<char>, p: usize, content: &mut Vec<u8>) -> (r: Result<
    (usize, Ghost<Seq<u8>>),
    JsonError,
>)
    requires
        p < s@.len(),
        s@[p as int] == '\\',
    ensures
        match r {
            Ok((p2, d)) => {
                &&& p < p2 <= s@.len()
                &&& final(content)@ == old(content)@ + d@
                &&& str_scan(s@, p as int) == str_scan_cont(s@, p2 as int, d@)
            },
            Err(_) => str_scan(s@, p as int) is None && final(content)@ == old(content)@,
        },
{
    if s.len() - p < 2 {
        return Err(JsonError::UnexpectedEnd { at: p });
    }
    let e = s[p + 1];
    if e == '"' || e == '\\' || e == '/' || e == 'b' || e == 'f' || e == 'n' || e == 'r' || e
        == 't' {
        let u: u32 = if e == 'b' {
            8
        } else if e == 'f' {
            0xc
        } else if e == 'n' {
            0xa
        } else if e == 'r' {
            0xd
        } else if e == 't' {
            9
        } else {
            e as u32
        };
        proof {
            assert(u == simple_escape_code(e));
        }
        push_utf8(content, u);
        Ok((p + 2, Ghost(utf8_char(u))))
    } else if e == 'u' {
        if s.len() - p < 6 {
            return Err(JsonError::UnexpectedEnd { at: p });
        }
        let h0 = hex_val(s[p + 2]);
        let h1 = hex_val(s[p + 3]);
        let h2 = hex_val(s[p + 4]);
        let h3 = hex_val(s[p + 5]);
        match (h0, h1, h2, h3) {
            (Some(d0), Some(d1), Some(d2), Some(d3)) => {
                let u = d0 * 0x1000 + d1 * 0x100 + d2 * 0x10 + d3;
                proof {
                    assert(u == hex4_val(s@, p as int + 2));
                }
                if 0xd800 <= u && u < 0xe000 {
                    return Err(JsonError::BadEscape { at: p });
                }
                push_utf8(content, u);
                Ok((p + 6, Ghost(utf8_char(u))))
            },
            _ => Err(JsonError::BadEscape { at: p }),
        }
    } else {
        Err(JsonError::BadEscape { at: p })
    }
}

/// Consumes one string literal (both quotes included) and emits its minimal
/// header followed by the decoded content as UTF-8.
#[verifier::rlimit(50)]
pub fn parse_string(s: &Vec<char>, pos: usize, out: &mut Vec<u8>) -> (r: Result<
    (usize, Ghost<Seq<u8>>),
    JsonError,
>)
    requires
        pos <= s@.len(),
    ensures
        match r {
            Ok((p2, g)) => {
                &&& pos + 2 <= p2 <= s@.len()
                &&& s@[pos as int] == '"'
                &&& str_scan(s@, pos as int + 1) == Some((g@, p2 as int))
                &&& g@.len() <= 0xffff_ffffu64
                &&& final(out)@ == old(out)@ + str_encoding(g@)
            },
            Err(_) => final(out)@ == old(out)@,
        },
        (r is Ok) <==> (pos < s@.len() && s@[pos as int] == '"' && match str_scan(
            s@,
            pos as int + 1,
        ) {
            Some((c, _)) => c.len() <= 0xffff_ffffu64,
            None => false,
        }),
        (pos < s@.len() && s@[pos as int] != '"') ==> r == Err::<(usize, Ghost<Seq<u8>>),
            JsonError,
        >(JsonError::UnexpectedChar { at: pos }),
{
    if !(pos < s.len() && s[pos] == '"') {
        if pos < s.len() {
            return Err(JsonError::UnexpectedChar { at: pos });
        } else {
            return Err(JsonError::UnexpectedEnd { at: pos });
        }
    }
    let mut p = pos + 1;
    let mut content: Vec<u8> = Vec::new();
    loop
        invariant_except_break
            pos as int + 1 <= p as int <= s@.len(),
            s@[pos as int] == '"',
            str_scan(s@, pos as int + 1) == str_scan_cont(s@, p as int, content@),
        ensures
            pos as int + 2 <= p as int <= s@.len(),
            str_scan(s@, pos as int + 1) == Some((content@, p as int)),
        decreases s@.len() - p,
    {
        if p >= s.len() {
            proof {
                assert(str_scan(s@, p as int) is None);
                assert(str_scan(s@, pos as int + 1) is None);
            }
            return Err(JsonError::UnexpectedEnd { at: p });
        }
        let c = s[p];
        if c == '"' {
            proof {
                assert(str_scan(s@, p as int) == Some((Seq::<u8>::empty(), p as int + 1)));
                assert(content@ + Seq::<u8>::empty() =~= content@);
            }
            p = p + 1;
            break ;
        }
        if c == '\\' {
            let ghost content0 = content@;
            match parse_escape(s, p, &mut content) {
                Ok((p2, d)) => {
                    proof {
                        lemma_cont_extend(s@, pos as int + 1, p as int, p2 as int, content0, d@);
                    }
                    p = p2;
                },
                Err(e) => {
                    proof {
                        assert(str_scan(s@, pos as int + 1) is None);
                    }
                    return Err(e);
                },
            }
        } else if c as u32 >= 0x20 {
            let ghost delta = utf8_char(c as u32);
            let ghost content0 = content@;
            push_utf8(&mut content, c as u32);
            proof {
                assert(str_scan(s@, p as int) == str_scan_cont(s@, p as int + 1, delta));
                lemma_cont_extend(s@, pos as int + 1, p as int, p as int + 1, content0, delta);
            }
            p = p + 1;
        } else {
            proof {
                assert(str_scan(s@, p as int) is None);
                assert(str_scan(s@, pos as int + 1) is None);
            }
            return Err(JsonError::UnexpectedChar { at: p });
        }
    }
    let ghost cg = content@;
    let n = content.len();
    if n <= 31 {
        out.push(0xa0u8 + n as u8);
    } else if n <= 0xff {
        out.push(0xd9u8);
        out.push(#[verifier::truncate] (n as u8));
    } else if n <= 0xffff {
        out.push(0xdau8);
        push_be2(out, #[verifier::truncate] (n as u16));
    } else if n <= 0xffff_ffff {
        out.push(0xdbu8);
        push_be4(out, #[verifier::truncate] (n as u32));
    } else {
        return Err(JsonError::TooLong { at: pos });
    }
    out.append(&mut content);
    proof {
        assert(out@ =~= old(out)@ + str_encoding(cg));
    }
    Ok((p, Ghost(cg)))
}

/// One scan step: when the scan at `p` decodes `delta` and continues at `j`,
/// the accumulated content moves from `acc` to `acc + delta`.
proof fn lemma_cont_extend(s: Seq<char>, i1: int, p: int, j: int, acc: Seq<u8>, delta: Seq<u8>)
    requires
        str_scan(s, i1) == str_scan_cont(s, p, acc),
        str_scan(s, p) == str_scan_cont(s, j, delta),
    ensures
        str_scan(s, i1) == str_scan_cont(s, j, acc + delta),
{
    match str_scan(s, j) {
        None => {},
        Some((c2, e)) => {
            assert((acc + (delta + c2)) =~= ((acc + delta) + c2));
        },
    }
}


/// Dispatches on the next codepoint to the matching handler.  Exactly the
/// codepoints `f n t { [ " -` and the digits may start a value.
pub fn parse_value(
    s: &Vec<char>,
    pos: usize,
    floats: &Vec<Option<u64>>,
    fpos: usize,
    out: &mut Vec<u8>,
) -> (r: Result<(usize, usize, Ghost<JsonVal>), JsonError>)
    requires
        pos <= s@.len(),
        fpos <= floats@.len(),
    ensures
        match r {
            Ok((p2, f2, g)) => {
                &&& pos < p2 <= s@.len()
                &&& fpos <= f2 <= floats@.len()
                &&& parses_to(s@, pos as int, p2 as int, floats@, fpos as int, f2 as int, g@)
                &&& final(out)@ == old(out)@ + msgpack_bytes(g@)
                &&& (g@.is_number() ==> p2 == token_end(s@, pos as int))
            },
            Err(_) => final(out)@ == old(out)@,
        },
        pos >= s@.len() ==> r == Err::<(usize, usize, Ghost<JsonVal>), JsonError>(
            JsonError::UnexpectedEnd { at: pos },
        ),
        pos < s@.len() && !is_value_start(s@[pos as int]) ==> r == Err::<(usize, usize,
            Ghost<JsonVal>), JsonError>(JsonError::UnexpectedChar { at: pos }),
        pos < s@.len() && s@[pos as int] == 'f' ==> ((r is Ok) <==> (pos + 5 <= s@.len()
            && s@[pos as int + 1] == 'a' && s@[pos as int + 2] == 'l' && s@[pos as int + 3] == 's'
            && s@[pos as int + 4] == 'e')),
        pos < s@.len() && s@[pos as int] == 'n' ==> ((r is Ok) <==> (pos + 4 <= s@.len()
            && s@[pos as int + 1] == 'u' && s@[pos as int + 2] == 'l' && s@[pos as int + 3]
            == 'l')),
        pos < s@.len() && s@[pos as int] == 't' ==> ((r is Ok) <==> (pos + 4 <= s@.len()
            && s@[pos as int + 1] == 'r' && s@[pos as int + 2] == 'u' && s@[pos as int + 3]
            == 'e')),
        pos < s@.len() && s@[pos as int] == '"' ==> ((r is Ok) <==> match str_scan(
            s@,
            pos as int + 1,
        ) {
            Some((c, _)) => c.len() <= 0xffff_ffffu64,
            None => false,
        }),
        pos < s@.len() && is_num_start(s@[pos as int]) && int_token_classified(
            s@,
            pos as int,
            token_end(s@, pos as int),
        ) ==> r is Ok,
        pos < s@.len() && is_num_start(s@[pos as int]) && !int_token_classified(
            s@,
            pos as int,
            token_end(s@, pos as int),
        ) && fpos < floats@.len() && floats@[fpos as int] is Some ==> r is Ok,
        value_owed(s@, pos as int, floats@, fpos as int) ==> r is Ok,
        (pos < s@.len() && s@[pos as int] != '[' && s@[pos as int] != '{') ==> match r {
            Ok((p2, _, _)) => p2 == scalar_end(s@, pos as int),
            Err(_) => true,
        },
        forall|j: int, fj: int, vw: JsonVal|
            (#[trigger] parses_to(s@, pos as int, j, floats@, fpos as int, fj, vw)
                && value_sep_ok(s@, j, vw) && within_limits(vw)) ==> match r {
                Ok((p2, f2, g)) => p2 == j && f2 == fj && g@ == vw,
                Err(_) => false,
            },
    decreases s@.len() - pos, 1int,
{
    if pos >= s.len() {
        return Err(JsonError::UnexpectedEnd { at: pos });
    }
    let c = s[pos];
    proof {
        assert forall|j: int, fj: int, vw: JsonVal| #[trigger] parses_to(
            s@,
            pos as int,
            j,
            floats@,
            fpos as int,
            fj,
            vw,
        ) implies {
            &&& is_value_start(s@[pos as int])
            &&& (vw is Null <==> s@[pos as int] == 'n')
            &&& (vw is False <==> s@[pos as int] == 'f')
            &&& (vw is True <==> s@[pos as int] == 't')
            &&& (vw is Str <==> s@[pos as int] == '"')
            &&& (vw is Arr <==> s@[pos as int] == '[')
            &&& (vw is Obj <==> s@[pos as int] == '{')
            &&& (vw.is_number() <==> is_num_start(s@[pos as int]))
        } by {
            lemma_parses_first_char(s@, pos as int, j, floats@, fpos as int, fj, vw);
        }
    }
    if c == 'f' {
        match parse_false(s, pos, out) {
            Ok(p2) => {
                let ghost v = JsonVal::False;
                proof {
                    assert(parses_to(
                        s@,
                        pos as int,
                        p2 as int,
                        floats@,
                        fpos as int,
                        fpos as int,
                        v,
                    ));
                    assert forall|j: int, fj: int, vw: JsonVal| #[trigger] parses_to(
                        s@,
                        pos as int,
                        j,
                        floats@,
                        fpos as int,
                        fj,
                        vw,
                    ) && value_sep_ok(s@, j, vw) && within_limits(vw) implies j == p2 as int && fj
                        == fpos as int && vw == v by {
                        match vw {
                            JsonVal::False => {},
                            _ => {},
                        }
                    }
                }
                Ok((p2, fpos, Ghost(v)))
            },
            Err(e) => Err(e),
        }
    } else if c == 'n' {
        match parse_null(s, pos, out) {
            Ok(p2) => {
                let ghost v = JsonVal::Null;
                proof {
                    assert(parses_to(
                        s@,
                        pos as int,
                        p2 as int,
                        floats@,
                        fpos as int,
                        fpos as int,
                        v,
                    ));
                    assert forall|j: int, fj: int, vw: JsonVal| #[trigger] parses_to(
                        s@,
                        pos as int,
                        j,
                        floats@,
                        fpos as int,
                        fj,
                        vw,
                    ) && value_sep_ok(s@, j, vw) && within_limits(vw) implies j == p2 as int && fj
                        == fpos as int && vw == v by {
                        match vw {
                            JsonVal::Null => {},
                            _ => {},
                        }
                    }
                }
                Ok((p2, fpos, Ghost(v)))
            },
            Err(e) => Err(e),
        }
    } else if c == 't' {
        match parse_true(s, pos, out) {
            Ok(p2) => {
                let ghost v = JsonVal::True;
                proof {
                    assert(parses_to(
                        s@,
                        pos as int,
                        p2 as int,
                        floats@,
                        fpos as int,
                        fpos as int,
                        v,
                    ));
                    assert forall|j: int, fj: int, vw: JsonVal| #[trigger] parses_to(
                        s@,
                        pos as int,
                        j,
                        floats@,
                        fpos as int,
                        fj,
                        vw,
                    ) && value_sep_ok(s@, j, vw) && within_limits(vw) implies j == p2 as int && fj
                        == fpos as int && vw == v by {
                        match vw {
                            JsonVal::True => {},
                            _ => {},
                        }
                    }
                }
                Ok((p2, fpos, Ghost(v)))
            },
            Err(e) => Err(e),
        }
    } else if c == '{' {
        parse_object(s, pos, floats, fpos, out)
    } else if c == '[' {
        parse_array(s, pos, floats, fpos, out)
    } else if c == '"' {
        match parse_string(s, pos, out) {
            Ok((p2, g)) => {
                let ghost v = JsonVal::Str(g@);
                proof {
                    assert(parses_to(
                        s@,
                        pos as int,
                        p2 as int,
                        floats@,
                        fpos as int,
                        fpos as int,
                        v,
                    ));
                    assert forall|j: int, fj: int, vw: JsonVal| #[trigger] parses_to(
                        s@,
                        pos as int,
                        j,
                        floats@,
                        fpos as int,
                        fj,
                        vw,
                    ) && value_sep_ok(s@, j, vw) && within_limits(vw) implies j == p2 as int && fj
                        == fpos as int && vw == v by {
                        match vw {
                            JsonVal::Str(cw) => {
                                assert(str_scan(s@, pos as int + 1) == Some((cw, j)));
                                assert(cw == g@);
                            },
                            _ => {},
                        }
                    }
                }
                Ok((p2, fpos, Ghost(v)))
            },
            Err(e) => {
                proof {
                    assert forall|j: int, fj: int, vw: JsonVal| #[trigger] parses_to(
                        s@,
                        pos as int,
                        j,
                        floats@,
                        fpos as int,
                        fj,
                        vw,
                    ) && value_sep_ok(s@, j, vw) && within_limits(vw) implies false by {
                        match vw {
                            JsonVal::Str(cw) => {
                                assert(str_scan(s@, pos as int + 1) == Some((cw, j)));
                                assert(cw.len() <= 0xffff_ffffu64);
                            },
                            _ => {},
                        }
                    }
                }
                Err(e)
            },
        }
    } else {
        let u = c as u32;
        if c == '-' || (0x30 <= u && u <= 0x39) {
            let res = parse_number(s, pos, floats, fpos, out);
            proof {
                assert forall|j: int, fj: int, vw: JsonVal| #[trigger] parses_to(
                    s@,
                    pos as int,
                    j,
                    floats@,
                    fpos as int,
                    fj,
                    vw,
                ) && value_sep_ok(s@, j, vw) && within_limits(vw) implies match res {
                    Ok((p2, f2, g)) => p2 == j && f2 == fj && g@ == vw,
                    Err(_) => false,
                } by {
                    assert(vw.is_number());
                }
            }
            res
        } else {
            proof {
                assert forall|j: int, fj: int, vw: JsonVal| #[trigger] parses_to(
                    s@,
                    pos as int,
                    j,
                    floats@,
                    fpos as int,
                    fj,
                    vw,
                ) && value_sep_ok(s@, j, vw) && within_limits(vw) implies false by {
                    assert(is_value_start(s@[pos as int]));
                    assert(!is_num_start(c));
                }
            }
            Err(JsonError::UnexpectedChar { at: pos })
        }
    }
}

/// Consumes one array, buffering the encoded elements in a scratch sink and
/// prepending the minimal header once the count is known.
#[verifier::rlimit(60)]
pub fn parse_array(
    s: &Vec<char>,
    pos: usize,
    floats: &Vec<Option<u64>>,
    fpos: usize,
    out: &mut Vec<u8>,
) -> (r: Result<(usize, usize, Ghost<JsonVal>), JsonError>)
    requires
        pos <= s@.len(),
        fpos <= floats@.len(),
    ensures
        match r {
            Ok((p2, f2, g)) => {
                &&& pos < p2 <= s@.len()
                &&& fpos <= f2 <= floats@.len()
                &&& parses_to(s@, pos as int, p2 as int, floats@, fpos as int, f2 as int, g@)
                &&& g@ is Arr
                &&& final(out)@ == old(out)@ + msgpack_bytes(g@)
            },
            Err(_) => final(out)@ == old(out)@,
        },
        (pos < s@.len() && s@[pos as int] == '[' && ws_end(s@, pos as int + 1) < s@.len()
            && s@[ws_end(s@, pos as int + 1)] == ']') ==> r is Ok,
        (pos < s@.len() && s@[pos as int] == '[' && scalar_owed(
            s@,
            ws_end(s@, pos as int + 1),
            floats@,
            fpos as int,
        ) && sep_end(s@, scalar_end(s@, ws_end(s@, pos as int + 1))) < s@.len()
            && s@[sep_end(s@, scalar_end(s@, ws_end(s@, pos as int + 1)))] == ']') ==> r is Ok,
        forall|j: int, fj: int, vw: JsonVal|
            (#[trigger] parses_to(s@, pos as int, j, floats@, fpos as int, fj, vw) && vw is Arr
                && within_limits(vw)) ==> match r {
                Ok((p2, f2, g)) => p2 == j && f2 == fj && g@ == vw,
                Err(_) => false,
            },
    decreases s@.len() - pos, 0int,
{
    if !(pos < s.len() && s[pos] == '[') {
        if pos < s.len() {
            return Err(JsonError::UnexpectedChar { at: pos });
        } else {
            return Err(JsonError::UnexpectedEnd { at: pos });
        }
    }
    let mut p = skip_ws(s, pos + 1);
    let mut buf: Vec<u8> = Vec::new();
    let mut n: usize = 0;
    let ghost mut elems: Seq<JsonVal> = Seq::empty();
    let mut f = fpos;
    proof {
        lemma_ws_end_idem(s@, pos as int + 1);
        assert forall|j: int, fj: int, vs: Seq<JsonVal>| #[trigger] parses_to(
            s@,
            pos as int,
            j,
            floats@,
            fpos as int,
            fj,
            JsonVal::Arr(vs),
        ) && within_limits(JsonVal::Arr(vs)) implies {
            &&& n as int <= vs.len()
            &&& elems == vs.take(n as int)
            &&& elems_upto(s@, p as int, j - 1, vs.skip(n as int), floats@, f as int, fj)
        } by {
            assert(elems =~= vs.take(0));
            assert(vs.skip(0) =~= vs);
            lemma_elems_upto_anchor(
                s@,
                pos as int + 1,
                p as int,
                j - 1,
                vs,
                floats@,
                fpos as int,
                fj,
            );
        }
    }
    while p < s.len() && s[p] != ']'
        invariant
            pos as int + 1 <= p as int <= s@.len(),
            pos < s@.len() && s@[pos as int] == '[',
            fpos <= f <= floats@.len(),
            n == elems.len(),
            n as int <= p as int - pos as int - 1,
            elems_upto(s@, pos as int + 1, p as int, elems, floats@, fpos as int, f as int),
            buf@ == encode_seq(elems, 0),
            out@ == old(out)@,
            (ws_end(s@, pos as int + 1) < s@.len() && s@[ws_end(s@, pos as int + 1)] == ']') ==> (
            n == 0 && p == ws_end(s@, pos as int + 1)),
            (scalar_owed(s@, ws_end(s@, pos as int + 1), floats@, fpos as int) && sep_end(
                s@,
                scalar_end(s@, ws_end(s@, pos as int + 1)),
            ) < s@.len() && s@[sep_end(s@, scalar_end(s@, ws_end(s@, pos as int + 1)))] == ']')
                ==> ((n == 0 && p == ws_end(s@, pos as int + 1)) || (n == 1 && p == sep_end(
                s@,
                scalar_end(s@, ws_end(s@, pos as int + 1)),
            ))),
            ws_end(s@, p as int) == p as int,
            forall|j: int, fj: int, vs: Seq<JsonVal>|
                (#[trigger] parses_to(s@, pos as int, j, floats@, fpos as int, fj, JsonVal::Arr(
                    vs,
                )) && within_limits(JsonVal::Arr(vs))) ==> {
                    &&& n as int <= vs.len()
                    &&& elems == vs.take(n as int)
                    &&& elems_upto(s@, p as int, j - 1, vs.skip(n as int), floats@, f as int, fj)
                },
        decreases s@.len() - p,
    {
        match parse_value(s, p, floats, f, &mut buf) {
            Err(e) => {
                proof {
                    assert forall|j: int, fj: int, vs: Seq<JsonVal>| #[trigger] parses_to(
                        s@,
                        pos as int,
                        j,
                        floats@,
                        fpos as int,
                        fj,
                        JsonVal::Arr(vs),
                    ) && within_limits(JsonVal::Arr(vs)) implies false by {
                        if vs.skip(n as int).len() == 0 {
                            assert(j - 1 == ws_end(s@, p as int));
                        } else {
                            lemma_elems_peel(
                                s@,
                                p as int,
                                j - 1,
                                vs.skip(n as int),
                                floats@,
                                f as int,
                                fj,
                            );
                            let (bw, fbw) = choose|bw: int, fbw: int|
                                #[trigger] boundary(bw, fbw, f as int) && parses_to(
                                    s@,
                                    ws_end(s@, p as int),
                                    bw,
                                    floats@,
                                    f as int,
                                    fbw,
                                    vs.skip(n as int).first(),
                                ) && value_sep_ok(s@, bw, vs.skip(n as int).first()) && 0 <= bw
                                <= s@.len() && elems_upto(
                                    s@,
                                    sep_end(s@, bw),
                                    j - 1,
                                    vs.skip(n as int).drop_first(),
                                    floats@,
                                    fbw,
                                    fj,
                                );
                            assert(vs.skip(n as int).first() == vs[n as int]);
                            assert(within_limits(vs[n as int]));
                            assert(parses_to(s@, p as int, bw, floats@, f as int, fbw, vs[n as int]));
                        }
                    }
                }
                return Err(e);
            },
            Ok((b, f2, g)) => {
                proof {
                    lemma_encode_seq_push(elems, g@, 0);
                    lemma_token_end(s@, p as int);
                    assert(value_sep_ok(s@, b as int, g@));
                }
                let ghost elems0 = elems;
                proof {
                    elems = elems.push(g@);
                }
                let gsep = skip_ws(s, b);
                let p2: usize;
                if gsep < s.len() && s[gsep] == ',' {
                    p2 = skip_ws(s, gsep + 1);
                } else {
                    p2 = gsep;
                }
                proof {
                    assert(p2 as int == sep_end(s@, b as int));
                    assert(elems.drop_last() =~= elems0);
                    assert(elems.last() == g@);
                    assert(parses_to(s@, p as int, b as int, floats@, f as int, f2 as int, elems.last()));
                    assert(value_sep_ok(s@, b as int, elems.last()));
                    assert(boundary(p as int, b as int, f as int));
                    assert(elems_upto(
                        s@,
                        pos as int + 1,
                        p2 as int,
                        elems,
                        floats@,
                        fpos as int,
                        f2 as int,
                    ));
                    lemma_sep_end_fix(s@, b as int);
                    assert forall|j: int, fj: int, vs: Seq<JsonVal>| #[trigger] parses_to(
                        s@,
                        pos as int,
                        j,
                        floats@,
                        fpos as int,
                        fj,
                        JsonVal::Arr(vs),
                    ) && within_limits(JsonVal::Arr(vs)) implies {
                        &&& n as int + 1 <= vs.len()
                        &&& elems == vs.take(n as int + 1)
                        &&& elems_upto(
                            s@,
                            p2 as int,
                            j - 1,
                            vs.skip(n as int + 1),
                            floats@,
                            f2 as int,
                            fj,
                        )
                    } by {
                        if vs.skip(n as int).len() == 0 {
                            assert(j - 1 == ws_end(s@, p as int));
                            assert(false);
                        }
                        lemma_elems_peel(
                            s@,
                            p as int,
                            j - 1,
                            vs.skip(n as int),
                            floats@,
                            f as int,
                            fj,
                        );
                        let (bw, fbw) = choose|bw: int, fbw: int|
                            #[trigger] boundary(bw, fbw, f as int) && parses_to(
                                s@,
                                ws_end(s@, p as int),
                                bw,
                                floats@,
                                f as int,
                                fbw,
                                vs.skip(n as int).first(),
                            ) && value_sep_ok(s@, bw, vs.skip(n as int).first()) && 0 <= bw
                            <= s@.len() && elems_upto(
                                s@,
                                sep_end(s@, bw),
                                j - 1,
                                vs.skip(n as int).drop_first(),
                                floats@,
                                fbw,
                                fj,
                            );
                        assert(vs.skip(n as int).first() == vs[n as int]);
                        assert(vs.skip(n as int).drop_first() =~= vs.skip(n as int + 1));
                        assert(within_limits(vs[n as int]));
                        assert(parses_to(s@, p as int, bw, floats@, f as int, fbw, vs[n as int]));
                        assert(b == bw && f2 as int == fbw && g@ == vs[n as int]);
                        assert(elems0.push(g@) =~= vs.take(n as int + 1));
                        assert(elems_upto(
                            s@,
                            p2 as int,
                            j - 1,
                            vs.skip(n as int + 1),
                            floats@,
                            f2 as int,
                            fj,
                        ));
                    }
                }
                n = n + 1;
                f = f2;
                p = p2;
            },
        }
    }
    if p >= s.len() {
        proof {
            assert forall|j: int, fj: int, vs: Seq<JsonVal>| #[trigger] parses_to(
                s@,
                pos as int,
                j,
                floats@,
                fpos as int,
                fj,
                JsonVal::Arr(vs),
            ) && within_limits(JsonVal::Arr(vs)) implies false by {
                if vs.skip(n as int).len() == 0 {
                    assert(j - 1 == ws_end(s@, p as int));
                } else {
                    lemma_elems_peel(s@, p as int, j - 1, vs.skip(n as int), floats@, f as int, fj);
                }
            }
        }
        return Err(JsonError::UnexpectedEnd { at: p });
    }
    proof {
        assert forall|j: int, fj: int, vs: Seq<JsonVal>| #[trigger] parses_to(
            s@,
            pos as int,
            j,
            floats@,
            fpos as int,
            fj,
            JsonVal::Arr(vs),
        ) && within_limits(JsonVal::Arr(vs)) implies {
            &&& n as int == vs.len()
            &&& elems == vs
            &&& j == p as int + 1
            &&& fj == f as int
        } by {
            if vs.skip(n as int).len() != 0 {
                lemma_elems_peel(s@, p as int, j - 1, vs.skip(n as int), floats@, f as int, fj);
                let (bw, fbw) = choose|bw: int, fbw: int|
                    #[trigger] boundary(bw, fbw, f as int) && parses_to(
                        s@,
                        ws_end(s@, p as int),
                        bw,
                        floats@,
                        f as int,
                        fbw,
                        vs.skip(n as int).first(),
                    ) && value_sep_ok(s@, bw, vs.skip(n as int).first()) && 0 <= bw <= s@.len()
                        && elems_upto(
                        s@,
                        sep_end(s@, bw),
                        j - 1,
                        vs.skip(n as int).drop_first(),
                        floats@,
                        fbw,
                        fj,
                    );
                lemma_parses_first_char(
                    s@,
                    p as int,
                    bw,
                    floats@,
                    f as int,
                    fbw,
                    vs.skip(n as int).first(),
                );
                assert(parses_to(s@, p as int, bw, floats@, f as int, fbw, vs.skip(n as int).first()));
                assert(false);
            }
            assert(vs.take(n as int) =~= vs);
            assert(j - 1 == ws_end(s@, p as int));
        }
    }
    let ghost v = JsonVal::Arr(elems);
    if n <= 15 {
        out.push(0x90u8 + n as u8);
    } else if n <= 0xffff {
        out.push(0xdcu8);
        push_be2(out, #[verifier::truncate] (n as u16));
    } else if n <= 0xffff_ffff {
        out.push(0xddu8);
        push_be4(out, #[verifier::truncate] (n as u32));
    } else {
        return Err(JsonError::TooLong { at: pos });
    }
    out.append(&mut buf);
    proof {
        assert(parses_to(s@, pos as int, p as int + 1, floats@, fpos as int, f as int, v));
        assert(out@ =~= old(out)@ + msgpack_bytes(v));
    }
    Ok((p + 1, f, Ghost(v)))
}

/// Consumes one object member: a string key, a colon, and a value.
pub fn parse_member(
    s: &Vec<char>,
    pos: usize,
    floats: &Vec<Option<u64>>,
    fpos: usize,
    out: &mut Vec<u8>,
) -> (r: Result<(usize, usize, Ghost<Member>), JsonError>)
    requires
        pos <= s@.len(),
        fpos <= floats@.len(),
    ensures
        match r {
            Ok((p2, f2, g)) => {
                &&& pos < p2 <= s@.len()
                &&& fpos <= f2 <= floats@.len()
                &&& member_parses_to(s@, pos as int, p2 as int, floats@, fpos as int, f2 as int, g@)
                &&& final(out)@ == old(out)@ + str_encoding(g@.key) + msgpack_bytes(g@.val)
            },
            Err(_) => final(out)@ == old(out)@ || (exists|k: Seq<u8>|
                final(out)@ == old(out)@ + #[trigger] str_encoding(k)),
        },
        member_owed(s@, pos as int, floats@, fpos as int) ==> match r {
            Ok((p2, _, _)) => p2 == member_scalar_end(s@, pos as int),
            Err(_) => false,
        },
        forall|j: int, fj: int, mw: Member|
            (#[trigger] member_parses_to(s@, pos as int, j, floats@, fpos as int, fj, mw)
                && member_within(mw)) ==> match r {
                Ok((p2, f2, g)) => p2 == j && f2 == fj && g@ == mw,
                Err(_) => false,
            },
        (pos < s@.len() && s@[pos as int] != '"') ==> r == Err::<(usize, usize, Ghost<Member>),
            JsonError,
        >(JsonError::UnexpectedChar { at: pos }),
        (pos < s@.len() && s@[pos as int] == '"' && match str_scan(s@, pos as int + 1) {
            Some((k, b1)) => k.len() <= 0xffff_ffffu64 && ws_end(s@, b1) < s@.len() && s@[ws_end(
                s@,
                b1,
            )] != ':',
            None => false,
        }) ==> match r {
            Ok(_) => false,
            Err(e) => e is UnexpectedChar,
        },
    decreases s@.len() - pos, 0int,
{
    let ghost out0 = out@;
    proof {
        assert forall|j: int, fj: int, mw: Member| #[trigger] member_parses_to(
            s@,
            pos as int,
            j,
            floats@,
            fpos as int,
            fj,
            mw,
        ) && member_within(mw) implies {
            &&& (pos as int) < s@.len() && s@[pos as int] == '"'
            &&& match str_scan(s@, pos as int + 1) {
                Some((k, b1w)) => k == mw.key && ws_end(s@, b1w) < s@.len() && s@[ws_end(
                    s@,
                    b1w,
                )] == ':' && parses_to(
                    s@,
                    ws_end(s@, ws_end(s@, b1w) + 1),
                    j,
                    floats@,
                    fpos as int,
                    fj,
                    mw.val,
                ) && value_sep_ok(s@, j, mw.val),
                None => false,
            }
        } by {
            lemma_member_witness(s@, pos as int, j, floats@, fpos as int, fj, mw);
        }
    }
    match parse_string(s, pos, out) {
        Err(e) => Err(e),
        Ok((b1, key)) => {
            let g = skip_ws(s, b1);
            if g >= s.len() {
                proof {
                    assert(out@ == out0 + str_encoding(key@));
                }
                return Err(JsonError::UnexpectedEnd { at: g });
            }
            if s[g] != ':' {
                proof {
                    assert(out@ == out0 + str_encoding(key@));
                }
                return Err(JsonError::UnexpectedChar { at: g });
            }
            let a2 = skip_ws(s, g + 1);
            match parse_value(s, a2, floats, fpos, out) {
                Err(e) => {
                    proof {
                        assert(out@ == out0 + str_encoding(key@));
                    }
                    Err(e)
                },
                Ok((p2, f2, gv)) => {
                    let ghost m = Member { key: key@, val: gv@ };
                    proof {
                        lemma_token_end(s@, a2 as int);
                        assert(value_sep_ok(s@, p2 as int, m.val));
                        assert(ws_end(s@, b1 as int) == g as int);
                        assert(boundary(b1 as int, a2 as int, fpos as int));
                        assert(parses_to(
                            s@,
                            a2 as int,
                            p2 as int,
                            floats@,
                            fpos as int,
                            f2 as int,
                            m.val,
                        ));
                        assert(member_parses_to(
                            s@,
                            pos as int,
                            p2 as int,
                            floats@,
                            fpos as int,
                            f2 as int,
                            m,
                        ));
                        assert(out@ =~= out0 + str_encoding(m.key) + msgpack_bytes(m.val));
                    }
                    Ok((p2, f2, Ghost(m)))
                },
            }
        },
    }
}

/// Consumes one object, buffering the encoded members in a scratch sink and
/// prepending the minimal header once the count is known.
#[verifier::rlimit(60)]
pub fn parse_object(
    s: &Vec<char>,
    pos: usize,
    floats: &Vec<Option<u64>>,
    fpos: usize,
    out: &mut Vec<u8>,
) -> (r: Result<(usize, usize, Ghost<JsonVal>), JsonError>)
    requires
        pos <= s@.len(),
        fpos <= floats@.len(),
    ensures
        match r {
            Ok((p2, f2, g)) => {
                &&& pos < p2 <= s@.len()
                &&& fpos <= f2 <= floats@.len()
                &&& parses_to(s@, pos as int, p2 as int, floats@, fpos as int, f2 as int, g@)
                &&& g@ is Obj
                &&& final(out)@ == old(out)@ + msgpack_bytes(g@)
            },
            Err(_) => final(out)@ == old(out)@,
        },
        (pos < s@.len() && s@[pos as int] == '{' && ws_end(s@, pos as int + 1) < s@.len()
            && s@[ws_end(s@, pos as int + 1)] == '}') ==> r is Ok,
        (pos < s@.len() && s@[pos as int] == '{' && member_owed(
            s@,
            ws_end(s@, pos as int + 1),
            floats@,
            fpos as int,
        ) && sep_end(s@, member_scalar_end(s@, ws_end(s@, pos as int + 1))) < s@.len()
            && s@[sep_end(s@, member_scalar_end(s@, ws_end(s@, pos as int + 1)))] == '}') ==> r
            is Ok,
        (pos < s@.len() && s@[pos as int] == '{' && ws_end(s@, pos as int + 1) < s@.len()
            && s@[ws_end(s@, pos as int + 1)] != '"' && s@[ws_end(s@, pos as int + 1)] != '}')
            ==> r == Err::<(usize, usize, Ghost<JsonVal>), JsonError>(
            JsonError::UnexpectedChar { at: ws_end(s@, pos as int + 1) as usize },
        ),
        forall|j: int, fj: int, vw: JsonVal|
            (#[trigger] parses_to(s@, pos as int, j, floats@, fpos as int, fj, vw) && vw is Obj
                && within_limits(vw)) ==> match r {
                Ok((p2, f2, g)) => p2 == j && f2 == fj && g@ == vw,
                Err(_) => false,
            },
    decreases s@.len() - pos, 0int,
{
    if !(pos < s.len() && s[pos] == '{') {
        if pos < s.len() {
            return Err(JsonError::UnexpectedChar { at: pos });
        } else {
            return Err(JsonError::UnexpectedEnd { at: pos });
        }
    }
    let mut p = skip_ws(s, pos + 1);
    let mut buf: Vec<u8> = Vec::new();
    let mut n: usize = 0;
    let ghost mut members: Seq<Member> = Seq::empty();
    let mut f = fpos;
    proof {
        lemma_ws_end_idem(s@, pos as int + 1);
        assert forall|j: int, fj: int, ms: Seq<Member>| #[trigger] parses_to(
            s@,
            pos as int,
            j,
            floats@,
            fpos as int,
            fj,
            JsonVal::Obj(ms),
        ) && within_limits(JsonVal::Obj(ms)) implies {
            &&& n as int <= ms.len()
            &&& members == ms.take(n as int)
            &&& members_upto(s@, p as int, j - 1, ms.skip(n as int), floats@, f as int, fj)
        } by {
            assert(members =~= ms.take(0));
            assert(ms.skip(0) =~= ms);
            lemma_members_upto_anchor(
                s@,
                pos as int + 1,
                p as int,
                j - 1,
                ms,
                floats@,
                fpos as int,
                fj,
            );
        }
    }
    while p < s.len() && s[p] != '}'
        invariant
            pos as int + 1 <= p as int <= s@.len(),
            pos < s@.len() && s@[pos as int] == '{',
            fpos <= f <= floats@.len(),
            n == members.len(),
            n as int <= p as int - pos as int - 1,
            members_upto(s@, pos as int + 1, p as int, members, floats@, fpos as int, f as int),
            buf@ == encode_members(members, 0),
            out@ == old(out)@,
            (ws_end(s@, pos as int + 1) < s@.len() && s@[ws_end(s@, pos as int + 1)] == '}') ==> (
            n == 0 && p == ws_end(s@, pos as int + 1)),
            (member_owed(s@, ws_end(s@, pos as int + 1), floats@, fpos as int) && sep_end(
                s@,
                member_scalar_end(s@, ws_end(s@, pos as int + 1)),
            ) < s@.len() && s@[sep_end(s@, member_scalar_end(s@, ws_end(s@, pos as int + 1)))]
                == '}') ==> ((n == 0 && p == ws_end(s@, pos as int + 1)) || (n == 1 && p == sep_end(
                s@,
                member_scalar_end(s@, ws_end(s@, pos as int + 1)),
            ))),
            (ws_end(s@, pos as int + 1) < s@.len() && s@[ws_end(s@, pos as int + 1)] != '"'
                && s@[ws_end(s@, pos as int + 1)] != '}') ==> (n == 0 && p == ws_end(
                s@,
                pos as int + 1,
            )),
            ws_end(s@, p as int) == p as int,
            forall|j: int, fj: int, ms: Seq<Member>|
                (#[trigger] parses_to(s@, pos as int, j, floats@, fpos as int, fj, JsonVal::Obj(
                    ms,
                )) && within_limits(JsonVal::Obj(ms))) ==> {
                    &&& n as int <= ms.len()
                    &&& members == ms.take(n as int)
                    &&& members_upto(s@, p as int, j - 1, ms.skip(n as int), floats@, f as int, fj)
                },
        decreases s@.len() - p,
    {
        match parse_member(s, p, floats, f, &mut buf) {
            Err(e) => {
                proof {
                    assert forall|j: int, fj: int, ms: Seq<Member>| #[trigger] parses_to(
                        s@,
                        pos as int,
                        j,
                        floats@,
                        fpos as int,
                        fj,
                        JsonVal::Obj(ms),
                    ) && within_limits(JsonVal::Obj(ms)) implies false by {
                        if ms.skip(n as int).len() == 0 {
                            assert(j - 1 == ws_end(s@, p as int));
                        } else {
                            lemma_members_peel(
                                s@,
                                p as int,
                                j - 1,
                                ms.skip(n as int),
                                floats@,
                                f as int,
                                fj,
                            );
                            let (bw, fbw) = choose|bw: int, fbw: int|
                                #[trigger] boundary(bw, fbw, f as int) && member_parses_to(
                                    s@,
                                    ws_end(s@, p as int),
                                    bw,
                                    floats@,
                                    f as int,
                                    fbw,
                                    ms.skip(n as int).first(),
                                ) && 0 <= bw <= s@.len() && members_upto(
                                    s@,
                                    sep_end(s@, bw),
                                    j - 1,
                                    ms.skip(n as int).drop_first(),
                                    floats@,
                                    fbw,
                                    fj,
                                );
                            assert(ms.skip(n as int).first() == ms[n as int]);
                            assert(member_within(ms[n as int]));
                            assert(member_parses_to(
                                s@,
                                p as int,
                                bw,
                                floats@,
                                f as int,
                                fbw,
                                ms[n as int],
                            ));
                        }
                    }
                }
                return Err(e);
            },
            Ok((b, f2, g)) => {
                proof {
                    lemma_encode_members_push(members, g@, 0);
                }
                let ghost members0 = members;
                proof {
                    members = members.push(g@);
                }
                let gsep = skip_ws(s, b);
                let p2: usize;
                if gsep < s.len() && s[gsep] == ',' {
                    p2 = skip_ws(s, gsep + 1);
                } else {
                    p2 = gsep;
                }
                proof {
                    assert(p2 as int == sep_end(s@, b as int));
                    assert(members.drop_last() =~= members0);
                    assert(members.last() == g@);
                    assert(member_parses_to(
                        s@,
                        p as int,
                        b as int,
                        floats@,
                        f as int,
                        f2 as int,
                        members.last(),
                    ));
                    assert(boundary(p as int, b as int, f as int));
                    assert(members_upto(
                        s@,
                        pos as int + 1,
                        p2 as int,
                        members,
                        floats@,
                        fpos as int,
                        f2 as int,
                    ));
                    lemma_sep_end_fix(s@, b as int);
                    assert forall|j: int, fj: int, ms: Seq<Member>| #[trigger] parses_to(
                        s@,
                        pos as int,
                        j,
                        floats@,
                        fpos as int,
                        fj,
                        JsonVal::Obj(ms),
                    ) && within_limits(JsonVal::Obj(ms)) implies {
                        &&& n as int + 1 <= ms.len()
                        &&& members == ms.take(n as int + 1)
                        &&& members_upto(
                            s@,
                            p2 as int,
                            j - 1,
                            ms.skip(n as int + 1),
                            floats@,
                            f2 as int,
                            fj,
                        )
                    } by {
                        if ms.skip(n as int).len() == 0 {
                            assert(j - 1 == ws_end(s@, p as int));
                            assert(false);
                        }
                        lemma_members_peel(
                            s@,
                            p as int,
                            j - 1,
                            ms.skip(n as int),
                            floats@,
                            f as int,
                            fj,
                        );
                        let (bw, fbw) = choose|bw: int, fbw: int|
                            #[trigger] boundary(bw, fbw, f as int) && member_parses_to(
                                s@,
                                ws_end(s@, p as int),
                                bw,
                                floats@,
                                f as int,
                                fbw,
                                ms.skip(n as int).first(),
                            ) && 0 <= bw <= s@.len() && members_upto(
                                s@,
                                sep_end(s@, bw),
                                j - 1,
                                ms.skip(n as int).drop_first(),
                                floats@,
                                fbw,
                                fj,
                            );
                        assert(ms.skip(n as int).first() == ms[n as int]);
                        assert(ms.skip(n as int).drop_first() =~= ms.skip(n as int + 1));
                        assert(member_within(ms[n as int]));
                        assert(member_parses_to(
                            s@,
                            p as int,
                            bw,
                            floats@,
                            f as int,
                            fbw,
                            ms[n as int],
                        ));
                        assert(b == bw && f2 as int == fbw && g@ == ms[n as int]);
                        assert(members0.push(g@) =~= ms.take(n as int + 1));
                        assert(members_upto(
                            s@,
                            p2 as int,
                            j - 1,
                            ms.skip(n as int + 1),
                            floats@,
                            f2 as int,
                            fj,
                        ));
                    }
                }
                n = n + 1;
                f = f2;
                p = p2;
            },
        }
    }
    if p >= s.len() {
        proof {
            assert forall|j: int, fj: int, ms: Seq<Member>| #[trigger] parses_to(
                s@,
                pos as int,
                j,
                floats@,
                fpos as int,
                fj,
                JsonVal::Obj(ms),
            ) && within_limits(JsonVal::Obj(ms)) implies false by {
                if ms.skip(n as int).len() == 0 {
                    assert(j - 1 == ws_end(s@, p as int));
                } else {
                    lemma_members_peel(
                        s@,
                        p as int,
                        j - 1,
                        ms.skip(n as int),
                        floats@,
                        f as int,
                        fj,
                    );
                    let (bw, fbw) = choose|bw: int, fbw: int|
                        #[trigger] boundary(bw, fbw, f as int) && member_parses_to(
                            s@,
                            ws_end(s@, p as int),
                            bw,
                            floats@,
                            f as int,
                            fbw,
                            ms.skip(n as int).first(),
                        ) && 0 <= bw <= s@.len() && members_upto(
                            s@,
                            sep_end(s@, bw),
                            j - 1,
                            ms.skip(n as int).drop_first(),
                            floats@,
                            fbw,
                            fj,
                        );
                    lemma_member_witness(
                        s@,
                        ws_end(s@, p as int),
                        bw,
                        floats@,
                        f as int,
                        fbw,
                        ms.skip(n as int).first(),
                    );
                }
            }
        }
        return Err(JsonError::UnexpectedEnd { at: p });
    }
    proof {
        assert forall|j: int, fj: int, ms: Seq<Member>| #[trigger] parses_to(
            s@,
            pos as int,
            j,
            floats@,
            fpos as int,
            fj,
            JsonVal::Obj(ms),
        ) && within_limits(JsonVal::Obj(ms)) implies {
            &&& n as int == ms.len()
            &&& members == ms
            &&& j == p as int + 1
            &&& fj == f as int
        } by {
            if ms.skip(n as int).len() != 0 {
                lemma_members_peel(s@, p as int, j - 1, ms.skip(n as int), floats@, f as int, fj);
                let (bw, fbw) = choose|bw: int, fbw: int|
                    #[trigger] boundary(bw, fbw, f as int) && member_parses_to(
                        s@,
                        ws_end(s@, p as int),
                        bw,
                        floats@,
                        f as int,
                        fbw,
                        ms.skip(n as int).first(),
                    ) && 0 <= bw <= s@.len() && members_upto(
                        s@,
                        sep_end(s@, bw),
                        j - 1,
                        ms.skip(n as int).drop_first(),
                        floats@,
                        fbw,
                        fj,
                    );
                lemma_member_witness(
                    s@,
                    ws_end(s@, p as int),
                    bw,
                    floats@,
                    f as int,
                    fbw,
                    ms.skip(n as int).first(),
                );
                assert(false);
            }
            assert(ms.take(n as int) =~= ms);
            assert(j - 1 == ws_end(s@, p as int));
        }
    }
    let ghost v = JsonVal::Obj(members);
    if n <= 15 {
        out.push(0x80u8 + n as u8);
    } else if n <= 0xffff {
        out.push(0xdeu8);
        push_be2(out, #[verifier::truncate] (n as u16));
    } else if n <= 0xffff_ffff {
        out.push(0xdfu8);
        push_be4(out, #[verifier::truncate] (n as u32));
    } else {
        return Err(JsonError::TooLong { at: pos });
    }
    out.append(&mut buf);
    proof {
        assert(parses_to(s@, pos as int, p as int + 1, floats@, fpos as int, f as int, v));
        assert(out@ =~= old(out)@ + msgpack_bytes(v));
    }
    Ok((p + 1, f, Ghost(v)))
}

/// Converts one whole JSON document to its MessagePack bytes.
///
/// Leading whitespace is skipped; one value is read and encoded; any text
/// after it is ignored.  `floats` supplies, in document order, the 64-bit
/// float bit pattern for each number token that fails every integer trial
/// (`None` marks a token that is no valid number either); when the table
/// runs short the call fails with [`JsonError::NeedFloat`] naming the token,
/// so the caller can parse it, extend the table, and call again.
pub fn encode_document(text: &Vec<char>, floats: &Vec<Option<u64>>) -> (r: Result<
    Vec<u8>,
    JsonError,
>)
    ensures
        match r {
            Ok(bytes) => exists|v: JsonVal, j: int, fj: int|
                #[trigger] parses_to(text@, ws_end(text@, 0), j, floats@, 0, fj, v)
                    && bytes@ == msgpack_bytes(v),
            Err(_) => true,
        },
        ws_end(text@, 0) >= text@.len() ==> r == Err::<Vec<u8>, JsonError>(
            JsonError::UnexpectedEnd { at: ws_end(text@, 0) as usize },
        ),
        ws_end(text@, 0) < text@.len() && !is_value_start(text@[ws_end(text@, 0)]) ==> r == Err::<
            Vec<u8>,
            JsonError,
        >(JsonError::UnexpectedChar { at: ws_end(text@, 0) as usize }),
        ws_end(text@, 0) < text@.len() && text@[ws_end(text@, 0)] == 'f' ==> ((r is Ok) <==> (
        ws_end(text@, 0) + 5 <= text@.len() && text@[ws_end(text@, 0) + 1] == 'a' && text@[ws_end(
            text@,
            0,
        ) + 2] == 'l' && text@[ws_end(text@, 0) + 3] == 's' && text@[ws_end(text@, 0) + 4] == 'e')),
        ws_end(text@, 0) < text@.len() && text@[ws_end(text@, 0)] == 'n' ==> ((r is Ok) <==> (
        ws_end(text@, 0) + 4 <= text@.len() && text@[ws_end(text@, 0) + 1] == 'u' && text@[ws_end(
            text@,
            0,
        ) + 2] == 'l' && text@[ws_end(text@, 0) + 3] == 'l')),
        ws_end(text@, 0) < text@.len() && text@[ws_end(text@, 0)] == 't' ==> ((r is Ok) <==> (
        ws_end(text@, 0) + 4 <= text@.len() && text@[ws_end(text@, 0) + 1] == 'r' && text@[ws_end(
            text@,
            0,
        ) + 2] == 'u' && text@[ws_end(text@, 0) + 3] == 'e')),
        ws_end(text@, 0) < text@.len() && text@[ws_end(text@, 0)] == '"' ==> ((r is Ok)
            <==> match str_scan(text@, ws_end(text@, 0) + 1) {
            Some((c, _)) => c.len() <= 0xffff_ffffu64,
            None => false,
        }),
        ws_end(text@, 0) < text@.len() && is_num_start(text@[ws_end(text@, 0)])
            && int_token_classified(text@, ws_end(text@, 0), token_end(text@, ws_end(text@, 0)))
            ==> r is Ok,
        ws_end(text@, 0) < text@.len() && is_num_start(text@[ws_end(text@, 0)])
            && !int_token_classified(text@, ws_end(text@, 0), token_end(text@, ws_end(text@, 0)))
            && floats@.len() > 0 && floats@[0] is Some ==> r is Ok,
        value_owed(text@, ws_end(text@, 0), floats@, 0) ==> r is Ok,
        (exists|j: int, fj: int, vw: JsonVal|
            #[trigger] parses_to(text@, ws_end(text@, 0), j, floats@, 0, fj, vw) && value_sep_ok(
                text@,
                j,
                vw,
            ) && within_limits(vw)) ==> r is Ok,
        forall|j: int, fj: int, vw: JsonVal|
            (#[trigger] parses_to(text@, ws_end(text@, 0), j, floats@, 0, fj, vw) && value_sep_ok(
                text@,
                j,
                vw,
            ) && within_limits(vw)) ==> match r {
                Ok(bytes) => bytes@ == msgpack_bytes(vw),
                Err(_) => false,
            },
{
    let p = skip_ws(text, 0);
    let mut out: Vec<u8> = Vec::new();
    match parse_value(text, p, floats, 0, &mut out) {
        Ok((p2, _f2, g)) => {
            proof {
                assert(parses_to(text@, ws_end(text@, 0), p2 as int, floats@, 0, _f2 as int, g@));
            }
            Ok(out)
        },
        Err(e) => {
            proof {
                if exists|j: int, fj: int, vw: JsonVal|
                    #[trigger] parses_to(text@, ws_end(text@, 0), j, floats@, 0, fj, vw)
                        && value_sep_ok(text@, j, vw) && within_limits(vw) {
                    let (jw, fjw, vw) = choose|jw: int, fjw: int, vw: JsonVal|
                        #[trigger] parses_to(text@, ws_end(text@, 0), jw, floats@, 0, fjw, vw)
                            && value_sep_ok(text@, jw, vw) && within_limits(vw);
                    assert(parses_to(text@, p as int, jw, floats@, 0, fjw, vw));
                }
            }
            Err(e)
        },
    }
}

} // verus!
