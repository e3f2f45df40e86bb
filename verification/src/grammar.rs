//! The JSON grammar the encoder recognizes, as a specification.
//!
//! `parses_to(s, i, j, fl, fi, fj, v)` says: the codepoints `s[i..j)` are a
//! rendering of the value `v`, consuming the supplied float bit patterns
//! `fl[fi..fj)` for its non-integer number tokens, exactly as the
//! recursive-descent reader consumes them.  Whitespace is allowed at every
//! structural boundary inside containers; a value's own text starts and ends
//! on non-whitespace.

use vstd::prelude::*;
use crate::value::{JsonVal, Member};

verus! {

/// JSON insignificant whitespace: space, tab, line feed, carriage return.
pub open spec fn is_ws(c: char) -> bool {
    c == ' ' || c == '\u{0009}' || c == '\u{000a}' || c == '\u{000d}'
}

/// The structural single-codepoint tokens.
pub open spec fn is_structural(c: char) -> bool {
    c == '[' || c == ']' || c == '{' || c == '}' || c == ':' || c == ','
}

/// Codepoints that terminate a number token.
pub open spec fn is_term_char(c: char) -> bool {
    is_ws(c) || is_structural(c)
}

pub open spec fn is_digit(c: char) -> bool {
    0x30 <= c as u32 && c as u32 <= 0x39
}

pub open spec fn digit_val(c: char) -> int {
    c as u32 - 0x30
}

/// Codepoints that may start a number token.
pub open spec fn is_num_start(c: char) -> bool {
    c == '-' || is_digit(c)
}

/// The codepoints that may begin a value; any other codepoint in value
/// position is a grammar violation.
pub open spec fn is_value_start(c: char) -> bool {
    c == 'f' || c == 'n' || c == 't' || c == '{' || c == '[' || c == '"' || is_num_start(c)
}

/// The first position at or after `i` holding a non-whitespace codepoint
/// (or the end of the text).
pub open spec fn ws_end(s: Seq<char>, i: int) -> int
    decreases s.len() - i,
{
    if 0 <= i && i < s.len() && is_ws(s[i]) {
        ws_end(s, i + 1)
    } else {
        i
    }
}

/// The first position at or after `i` holding a number-token terminator
/// (or the end of the text).
pub open spec fn token_end(s: Seq<char>, i: int) -> int
    decreases s.len() - i,
{
    if 0 <= i && i < s.len() && !is_term_char(s[i]) {
        token_end(s, i + 1)
    } else {
        i
    }
}

pub proof fn lemma_ws_end(s: Seq<char>, i: int)
    requires
        0 <= i <= s.len(),
    ensures
        i <= ws_end(s, i) <= s.len(),
        ws_end(s, i) < s.len() ==> !is_ws(s[ws_end(s, i)]),
    decreases s.len() - i,
{
    if i < s.len() && is_ws(s[i]) {
        lemma_ws_end(s, i + 1);
    }
}

pub proof fn lemma_token_end(s: Seq<char>, i: int)
    requires
        0 <= i <= s.len(),
    ensures
        i <= token_end(s, i) <= s.len(),
        token_end(s, i) < s.len() ==> is_term_char(s[token_end(s, i)]),
        forall|k: int| i <= k < token_end(s, i) ==> !is_term_char(s[k]),
    decreases s.len() - i,
{
    if i < s.len() && !is_term_char(s[i]) {
        lemma_token_end(s, i + 1);
    }
}

/// Digits interpreted as a decimal number, most significant first.
pub open spec fn digits_val(s: Seq<char>, i: int, j: int) -> int
    decreases j - i,
{
    if j <= i {
        0
    } else {
        digits_val(s, i, j - 1) * 10 + digit_val(s[j - 1])
    }
}

pub open spec fn all_digits(s: Seq<char>, i: int, j: int) -> bool {
    forall|k: int| i <= k < j ==> is_digit(s[k])
}

/// Tokens the number encoder turns into a non-negative integer: a digit run,
/// or a minus sign followed by digits denoting zero.
pub open spec fn is_uint_token(s: Seq<char>, i: int, j: int, n: u64) -> bool {
    ||| (i < j && all_digits(s, i, j) && digits_val(s, i, j) == n)
    ||| (i + 1 < j && s[i] == '-' && all_digits(s, i + 1, j) && digits_val(s, i + 1, j) == 0
        && n == 0)
}

/// Tokens the number encoder turns into the negative integer `-m`.
pub open spec fn is_nint_token(s: Seq<char>, i: int, j: int, m: u64) -> bool {
    i + 1 < j && s[i] == '-' && all_digits(s, i + 1, j) && digits_val(s, i + 1, j) == m
}

/// Tokens that are accepted by one of the integer trials.
pub open spec fn int_token_classified(s: Seq<char>, i: int, j: int) -> bool {
    ||| (i < j && all_digits(s, i, j) && digits_val(s, i, j) <= u64::MAX)
    ||| (i + 1 < j && s[i] == '-' && all_digits(s, i + 1, j) && (digits_val(s, i + 1, j) == 0
        || digits_val(s, i + 1, j) <= 0x8000_0000_0000_0000))
}

/// Number tokens that fall through every integer trial to the float form.
pub open spec fn is_float_token(s: Seq<char>, i: int, j: int) -> bool {
    &&& i < j
    &&& is_num_start(s[i])
    &&& forall|k: int| i <= k < j ==> !is_term_char(s[k])
    &&& !int_token_classified(s, i, j)
}

pub open spec fn is_hex_digit(c: char) -> bool {
    ||| (0x30 <= c as u32 && c as u32 <= 0x39)
    ||| (0x41 <= c as u32 && c as u32 <= 0x46)
    ||| (0x61 <= c as u32 && c as u32 <= 0x66)
}

pub open spec fn hex_digit_val(c: char) -> int {
    if 0x30 <= c as u32 && c as u32 <= 0x39 {
        c as u32 - 0x30
    } else if 0x41 <= c as u32 && c as u32 <= 0x46 {
        c as u32 - 0x41 + 10
    } else {
        c as u32 - 0x61 + 10
    }
}

/// The value of the four hex digits at `s[i..i+4)`.
pub open spec fn hex4_val(s: Seq<char>, i: int) -> int {
    hex_digit_val(s[i]) * 0x1000 + hex_digit_val(s[i + 1]) * 0x100 + hex_digit_val(s[i + 2]) * 0x10
        + hex_digit_val(s[i + 3])
}

/// The UTF-8 bytes of the Unicode scalar value `u`.
pub open spec fn utf8_char(u: u32) -> Seq<u8> {
    if u < 0x80 {
        seq![u as u8]
    } else if u < 0x800 {
        seq![(0xc0 | (u >> 6)) as u8, (0x80 | (u & 0x3f)) as u8]
    } else if u < 0x1_0000 {
        seq![
            (0xe0 | (u >> 12)) as u8,
            (0x80 | ((u >> 6) & 0x3f)) as u8,
            (0x80 | (u & 0x3f)) as u8,
        ]
    } else {
        seq![
            (0xf0 | (u >> 18)) as u8,
            (0x80 | ((u >> 12) & 0x3f)) as u8,
            (0x80 | ((u >> 6) & 0x3f)) as u8,
            (0x80 | (u & 0x3f)) as u8,
        ]
    }
}

/// The escape characters that stand for a single fixed codepoint.
pub open spec fn is_simple_escape(c: char) -> bool {
    c == '"' || c == '\\' || c == '/' || c == 'b' || c == 'f' || c == 'n' || c == 'r' || c == 't'
}

pub open spec fn simple_escape_code(c: char) -> u32 {
    if c == 'b' {
        8
    } else if c == 'f' {
        0xc
    } else if c == 'n' {
        0xa
    } else if c == 'r' {
        0xd
    } else if c == 't' {
        9
    } else {
        c as u32
    }
}

/// Scans a string body from position `i` (just after the opening quote).
/// Returns the decoded content as UTF-8 bytes and the position just after
/// the closing quote, or `None` on a malformed body.
pub open spec fn str_scan(s: Seq<char>, i: int) -> Option<(Seq<u8>, int)>
    decreases s.len() - i, 0int,
{
    if i < 0 || i >= s.len() {
        None
    } else if s[i] == '"' {
        Some((Seq::<u8>::empty(), i + 1))
    } else if s[i] == '\\' {
        if i + 1 >= s.len() {
            None
        } else {
            let e = s[i + 1];
            if is_simple_escape(e) {
                str_scan_cont(s, i + 2, utf8_char(simple_escape_code(e)))
            } else if e == 'u' {
                if i + 6 > s.len() {
                    None
                } else if !(is_hex_digit(s[i + 2]) && is_hex_digit(s[i + 3]) && is_hex_digit(
                    s[i + 4],
                ) && is_hex_digit(s[i + 5])) {
                    None
                } else {
                    let u = hex4_val(s, i + 2) as u32;
                    if 0xd800 <= u && u < 0xe000 {
                        None
                    } else {
                        str_scan_cont(s, i + 6, utf8_char(u))
                    }
                }
            } else {
                None
            }
        }
    } else if s[i] as u32 >= 0x20 {
        str_scan_cont(s, i + 1, utf8_char(s[i] as u32))
    } else {
        None
    }
}

/// Continues a string-body scan at `j`, prepending the bytes already decoded.
pub open spec fn str_scan_cont(s: Seq<char>, j: int, bytes: Seq<u8>) -> Option<(Seq<u8>, int)>
    decreases s.len() - j, 1int,
{
    match str_scan(s, j) {
        None => None,
        Some((c, e)) => Some((bytes + c, e)),
    }
}

/// Positions where the reader owes success on a scalar: a correctly
/// spelled literal, a string whose body scans with a content length under
/// the 32-bit ceiling, or a number token that an integer trial accepts or
/// whose 64-bit float bit pattern the table supplies next.
pub open spec fn scalar_owed(s: Seq<char>, p: int, fl: Seq<Option<u64>>, fk: int) -> bool {
    0 <= p < s.len() && {
        ||| (s[p] == 'f' && p + 5 <= s.len() && s[p + 1] == 'a' && s[p + 2] == 'l' && s[p + 3]
            == 's' && s[p + 4] == 'e')
        ||| (s[p] == 'n' && p + 4 <= s.len() && s[p + 1] == 'u' && s[p + 2] == 'l' && s[p + 3]
            == 'l')
        ||| (s[p] == 't' && p + 4 <= s.len() && s[p + 1] == 'r' && s[p + 2] == 'u' && s[p + 3]
            == 'e')
        ||| (s[p] == '"' && match str_scan(s, p + 1) {
            Some((c, _)) => c.len() <= 0xffff_ffffu64,
            None => false,
        })
        ||| (is_num_start(s[p]) && (int_token_classified(s, p, token_end(s, p)) || (0 <= fk
            < fl.len() && fl[fk] is Some)))
    }
}

/// Where a scalar value starting at `p` ends: literals by their spelling,
/// strings by the scan, numbers by the maximal token.
pub open spec fn scalar_end(s: Seq<char>, p: int) -> int {
    if 0 <= p < s.len() {
        if s[p] == 'f' {
            p + 5
        } else if s[p] == 'n' || s[p] == 't' {
            p + 4
        } else if s[p] == '"' {
            match str_scan(s, p + 1) {
                Some((_, e)) => e,
                None => p,
            }
        } else {
            token_end(s, p)
        }
    } else {
        p
    }
}

/// Where a member starting at the quote `p` ends, when its value is a
/// scalar: past the key string, the colon, the whitespace, and the value.
pub open spec fn member_scalar_end(s: Seq<char>, p: int) -> int {
    match str_scan(s, p + 1) {
        Some((_, b1)) => scalar_end(s, ws_end(s, ws_end(s, b1) + 1)),
        None => p,
    }
}

/// Positions where the reader owes success on one object member whose
/// value is a scalar: the key string scans with a fitting length, the
/// colon is present, and a scalar is owed after it.
pub open spec fn member_owed(s: Seq<char>, p: int, fl: Seq<Option<u64>>, fk: int) -> bool {
    0 <= p < s.len() && s[p] == '"' && match str_scan(s, p + 1) {
        Some((k, b1)) => k.len() <= 0xffff_ffffu64 && ws_end(s, b1) < s.len() && s[ws_end(s, b1)]
            == ':' && scalar_owed(s, ws_end(s, ws_end(s, b1) + 1), fl, fk),
        None => false,
    }
}

/// Value forms the reader owes success on, at position `p`, stated without
/// quantifiers: every scalar, the empty containers, and a container of
/// exactly one scalar-valued element or member.  (The general form — any
/// rendering within `within_limits` is owed success — is the final contract
/// clause of each parse function.)
pub open spec fn value_owed(s: Seq<char>, p: int, fl: Seq<Option<u64>>, fk: int) -> bool {
    ||| scalar_owed(s, p, fl, fk)
    ||| (0 <= p < s.len() && s[p] == '[' && {
        let p1 = ws_end(s, p + 1);
        ||| (p1 < s.len() && s[p1] == ']')
        ||| (scalar_owed(s, p1, fl, fk) && sep_end(s, scalar_end(s, p1)) < s.len() && s[sep_end(
            s,
            scalar_end(s, p1),
        )] == ']')
    })
    ||| (0 <= p < s.len() && s[p] == '{' && {
        let p1 = ws_end(s, p + 1);
        ||| (p1 < s.len() && s[p1] == '}')
        ||| (member_owed(s, p1, fl, fk) && sep_end(s, member_scalar_end(s, p1)) < s.len()
            && s[sep_end(s, member_scalar_end(s, p1))] == '}')
    })
}

/// After a number token, the very next codepoint (if any) must be a
/// terminator, or it would have been accumulated into the token.
pub open spec fn value_sep_ok(s: Seq<char>, j: int, v: JsonVal) -> bool {
    v.is_number() ==> (j == s.len() || is_term_char(s[j]))
}

/// The position where the reader stands after finishing a container element
/// ending at `b`: past any whitespace, one optional comma, and any
/// whitespace after it.
///
/// The comma is deliberately optional and one trailing comma before the
/// closing delimiter is accepted: the reader consumes at most one comma
/// after each element and never requires it, a leniency kept on purpose
/// (strict JSON would demand exactly one comma between elements and none at
/// the end); the tests pin both behaviours down.
pub open spec fn sep_end(s: Seq<char>, b: int) -> int {
    let g = ws_end(s, b);
    if g < s.len() && s[g] == ',' {
        ws_end(s, g + 1)
    } else {
        g
    }
}

/// The text `s[i..j)` renders `v`, consuming the float bit patterns `fl[fi..fj)`.
pub open spec fn parses_to(
    s: Seq<char>,
    i: int,
    j: int,
    fl: Seq<Option<u64>>,
    fi: int,
    fj: int,
    v: JsonVal,
) -> bool
    decreases v, 0int,
{
    &&& 0 <= i < j <= s.len()
    &&& 0 <= fi <= fj <= fl.len()
    &&& match v {
        JsonVal::Null => j == i + 4 && s[i] == 'n' && s[i + 1] == 'u' && s[i + 2] == 'l'
            && s[i + 3] == 'l' && fj == fi,
        JsonVal::False => j == i + 5 && s[i] == 'f' && s[i + 1] == 'a' && s[i + 2] == 'l'
            && s[i + 3] == 's' && s[i + 4] == 'e' && fj == fi,
        JsonVal::True => j == i + 4 && s[i] == 't' && s[i + 1] == 'r' && s[i + 2] == 'u'
            && s[i + 3] == 'e' && fj == fi,
        JsonVal::UInt(n) => fj == fi && is_uint_token(s, i, j, n),
        JsonVal::NInt(m) => fj == fi && 1 <= m && m <= 0x8000_0000_0000_0000u64 && is_nint_token(
            s,
            i,
            j,
            m,
        ),
        JsonVal::Float(bits) => fj == fi + 1 && fi < fl.len() && fl[fi] == Some(bits)
            && is_float_token(s, i, j),
        JsonVal::Str(content) => fj == fi && s[i] == '"' && str_scan(s, i + 1) == Some(
            (content, j),
        ),
        JsonVal::Arr(vs) => s[i] == '[' && s[j - 1] == ']' && elems_upto(
            s,
            i + 1,
            j - 1,
            vs,
            fl,
            fi,
            fj,
        ),
        JsonVal::Obj(ms) => s[i] == '{' && s[j - 1] == '}' && members_upto(
            s,
            i + 1,
            j - 1,
            ms,
            fl,
            fi,
            fj,
        ),
    }
}

/// Marks the boundary witnesses of one container element or member; used
/// only as a quantifier trigger.
pub open spec fn boundary(a: int, b: int, fa: int) -> bool {
    true
}

/// After the opening bracket at `i - 1`, parsing the elements of `vs` with
/// their separators leaves the reader (past whitespace) at `j`, having
/// consumed `fl[fi..fj)`.
pub open spec fn elems_upto(
    s: Seq<char>,
    i: int,
    j: int,
    vs: Seq<JsonVal>,
    fl: Seq<Option<u64>>,
    fi: int,
    fj: int,
) -> bool
    decreases vs, 0int,
{
    if vs.len() == 0 {
        j == ws_end(s, i) && fj == fi
    } else {
        exists|a: int, b: int, fa: int|
            #[trigger] boundary(a, b, fa) && elems_upto(s, i, a, vs.drop_last(), fl, fi, fa)
                && parses_to(s, a, b, fl, fa, fj, vs.last()) && value_sep_ok(s, b, vs.last())
                && j == sep_end(s, b)
    }
}

/// One object member: a string key, a colon, and a value ending at `j`.
pub open spec fn member_parses_to(
    s: Seq<char>,
    i: int,
    j: int,
    fl: Seq<Option<u64>>,
    fi: int,
    fj: int,
    m: Member,
) -> bool
    decreases m, 0int,
{
    exists|b1: int, a2: int|
        {
            &&& #[trigger] boundary(b1, a2, fi)
            &&& 0 <= i < s.len()
            &&& s[i] == '"'
            &&& str_scan(s, i + 1) == Some((m.key, b1))
            &&& ws_end(s, b1) < s.len()
            &&& s[ws_end(s, b1)] == ':'
            &&& a2 == ws_end(s, ws_end(s, b1) + 1)
            &&& parses_to(s, a2, j, fl, fi, fj, m.val)
            &&& value_sep_ok(s, j, m.val)
        }
}

/// After the opening brace at `i - 1`, parsing the members of `ms` with
/// their separators leaves the reader (past whitespace) at `j`.
pub open spec fn members_upto(
    s: Seq<char>,
    i: int,
    j: int,
    ms: Seq<Member>,
    fl: Seq<Option<u64>>,
    fi: int,
    fj: int,
) -> bool
    decreases ms, 0int,
{
    if ms.len() == 0 {
        j == ws_end(s, i) && fj == fi
    } else {
        exists|a: int, b: int, fa: int|
            #[trigger] boundary(a, b, fa) && members_upto(s, i, a, ms.drop_last(), fl, fi, fa)
                && member_parses_to(s, a, b, fl, fa, fj, ms.last()) && j == sep_end(s, b)
    }
}

/// Limits under which every value can be encoded: string contents and
/// container counts within the 32-bit ceiling, recursively.
pub open spec fn within_limits(v: JsonVal) -> bool
    decreases v, 0int,
{
    match v {
        JsonVal::Str(c) => c.len() <= 0xffff_ffff,
        JsonVal::Arr(vs) => vs.len() <= 0xffff_ffff && forall|k: int|
            0 <= k < vs.len() ==> within_limits(#[trigger] vs[k]),
        JsonVal::Obj(ms) => ms.len() <= 0xffff_ffff && forall|k: int|
            0 <= k < ms.len() ==> ((#[trigger] ms[k]).key.len() <= 0xffff_ffff && within_limits(
                ms[k].val,
            )),
        _ => true,
    }
}

/// Limits for one member: key and value within the 32-bit ceilings.
pub open spec fn member_within(m: Member) -> bool {
    m.key.len() <= 0xffff_ffff && within_limits(m.val)
}

/// Skipping whitespace twice is skipping it once.
pub proof fn lemma_ws_end_idem(s: Seq<char>, i: int)
    requires
        0 <= i <= s.len(),
    ensures
        ws_end(s, ws_end(s, i)) == ws_end(s, i),
{
    lemma_ws_end(s, i);
}

/// A run of non-terminators closed by a terminator (or the end) is the
/// maximal token.
pub proof fn lemma_token_chars(s: Seq<char>, i: int, j: int)
    requires
        0 <= i <= j <= s.len(),
        forall|k: int| i <= k < j ==> !is_term_char(s[k]),
        j == s.len() || is_term_char(s[j]),
    ensures
        j == token_end(s, i),
    decreases j - i,
{
    if i < j {
        lemma_token_chars(s, i + 1, j);
    }
}

/// A rendered value starts with one of the value-start codepoints, and its
/// case is fixed by that codepoint.
pub proof fn lemma_parses_first_char(
    s: Seq<char>,
    i: int,
    j: int,
    fl: Seq<Option<u64>>,
    fi: int,
    fj: int,
    v: JsonVal,
)
    requires
        parses_to(s, i, j, fl, fi, fj, v),
    ensures
        is_value_start(s[i]),
        v is Null <==> s[i] == 'n',
        v is False <==> s[i] == 'f',
        v is True <==> s[i] == 't',
        v is Str <==> s[i] == '"',
        v is Arr <==> s[i] == '[',
        v is Obj <==> s[i] == '{',
        v.is_number() <==> is_num_start(s[i]),
{
    match v {
        JsonVal::UInt(n) => {
            if !(i < j && all_digits(s, i, j) && digits_val(s, i, j) == n) {
            } else {
                assert(is_digit(s[i]));
            }
        },
        JsonVal::Float(_) => {
            assert(is_float_token(s, i, j));
        },
        _ => {},
    }
}

/// Number tokens contain no terminators, so a rendered number with a
/// terminator (or the end) right after it is the maximal token.
pub proof fn lemma_number_token_maximal(
    s: Seq<char>,
    i: int,
    j: int,
    fl: Seq<Option<u64>>,
    fi: int,
    fj: int,
    v: JsonVal,
)
    requires
        parses_to(s, i, j, fl, fi, fj, v),
        v.is_number(),
        value_sep_ok(s, j, v),
    ensures
        j == token_end(s, i),
{
    assert forall|k: int| i <= k < j implies !is_term_char(s[k]) by {
        match v {
            JsonVal::UInt(n) => {
                if i < j && all_digits(s, i, j) && digits_val(s, i, j) == n {
                    assert(is_digit(s[k]));
                } else {
                    if k > i {
                        assert(is_digit(s[k]));
                    }
                }
            },
            JsonVal::NInt(_) => {
                if k > i {
                    assert(is_digit(s[k]));
                }
            },
            _ => {},
        }
    }
    lemma_token_chars(s, i, j);
}

/// The element relation cares about its anchor only through the whitespace
/// skip, so anchors with one whitespace-end are interchangeable.
pub proof fn lemma_elems_upto_anchor(
    s: Seq<char>,
    i: int,
    i2: int,
    j: int,
    vs: Seq<JsonVal>,
    fl: Seq<Option<u64>>,
    fi: int,
    fj: int,
)
    requires
        elems_upto(s, i, j, vs, fl, fi, fj),
        ws_end(s, i2) == ws_end(s, i),
    ensures
        elems_upto(s, i2, j, vs, fl, fi, fj),
    decreases vs, 1int,
{
    if vs.len() > 0 {
        let (a, b, fa) = choose|a: int, b: int, fa: int|
            #[trigger] boundary(a, b, fa) && elems_upto(s, i, a, vs.drop_last(), fl, fi, fa)
                && parses_to(s, a, b, fl, fa, fj, vs.last()) && value_sep_ok(s, b, vs.last())
                && j == sep_end(s, b);
        lemma_elems_upto_anchor(s, i, i2, a, vs.drop_last(), fl, fi, fa);
        assert(boundary(a, b, fa));
    }
}

/// As for elements, so for members.
pub proof fn lemma_members_upto_anchor(
    s: Seq<char>,
    i: int,
    i2: int,
    j: int,
    ms: Seq<Member>,
    fl: Seq<Option<u64>>,
    fi: int,
    fj: int,
)
    requires
        members_upto(s, i, j, ms, fl, fi, fj),
        ws_end(s, i2) == ws_end(s, i),
    ensures
        members_upto(s, i2, j, ms, fl, fi, fj),
    decreases ms, 1int,
{
    if ms.len() > 0 {
        let (a, b, fa) = choose|a: int, b: int, fa: int|
            #[trigger] boundary(a, b, fa) && members_upto(s, i, a, ms.drop_last(), fl, fi, fa)
                && member_parses_to(s, a, b, fl, fa, fj, ms.last()) && j == sep_end(s, b);
        lemma_members_upto_anchor(s, i, i2, a, ms.drop_last(), fl, fi, fa);
        assert(boundary(a, b, fa));
    }
}

/// The position after an element's separator is already past whitespace.
pub proof fn lemma_sep_end_fix(s: Seq<char>, b: int)
    requires
        0 <= b <= s.len(),
    ensures
        ws_end(s, sep_end(s, b)) == sep_end(s, b),
        b <= sep_end(s, b) <= s.len(),
{
    lemma_ws_end(s, b);
    lemma_ws_end_idem(s, b);
    let g = ws_end(s, b);
    if g < s.len() && s[g] == ',' {
        lemma_ws_end(s, g + 1);
        lemma_ws_end_idem(s, g + 1);
    }
}

/// Peels the first element off a rendered element list: it is a value at
/// the whitespace-skipped anchor, and the rest renders from the position
/// after its separator.
pub proof fn lemma_elems_peel(
    s: Seq<char>,
    i: int,
    j: int,
    vs: Seq<JsonVal>,
    fl: Seq<Option<u64>>,
    fi: int,
    fj: int,
)
    requires
        elems_upto(s, i, j, vs, fl, fi, fj),
        vs.len() > 0,
        0 <= i <= s.len(),
    ensures
        exists|b: int, fb: int|
            #[trigger] boundary(b, fb, fi) && parses_to(s, ws_end(s, i), b, fl, fi, fb, vs.first())
                && value_sep_ok(s, b, vs.first()) && 0 <= b <= s.len() && elems_upto(
                s,
                sep_end(s, b),
                j,
                vs.drop_first(),
                fl,
                fb,
                fj,
            ),
    decreases vs, 2int,
{
    let (a, b, fa) = choose|a: int, b: int, fa: int|
        #[trigger] boundary(a, b, fa) && elems_upto(s, i, a, vs.drop_last(), fl, fi, fa)
            && parses_to(s, a, b, fl, fa, fj, vs.last()) && value_sep_ok(s, b, vs.last()) && j
            == sep_end(s, b);
    if vs.len() == 1 {
        assert(vs.first() == vs.last());
        lemma_sep_end_fix(s, b);
        assert(parses_to(s, ws_end(s, i), b, fl, fi, fj, vs.first()));
        assert(elems_upto(s, sep_end(s, b), j, vs.drop_first(), fl, fj, fj));
        assert(boundary(b, fj, fi));
    } else {
        lemma_elems_peel(s, i, a, vs.drop_last(), fl, fi, fa);
        let (b1, fb1) = choose|b1: int, fb1: int|
            #[trigger] boundary(b1, fb1, fi) && parses_to(
                s,
                ws_end(s, i),
                b1,
                fl,
                fi,
                fb1,
                vs.drop_last().first(),
            ) && value_sep_ok(s, b1, vs.drop_last().first()) && 0 <= b1 <= s.len() && elems_upto(
                s,
                sep_end(s, b1),
                a,
                vs.drop_last().drop_first(),
                fl,
                fb1,
                fa,
            );
        assert(vs.drop_first().drop_last() =~= vs.drop_last().drop_first());
        assert(vs.drop_first().last() == vs.last());
        assert(vs.drop_last().first() == vs.first());
        assert(elems_upto(s, sep_end(s, b1), a, vs.drop_first().drop_last(), fl, fb1, fa));
        assert(parses_to(s, a, b, fl, fa, fj, vs.drop_first().last()));
        assert(boundary(a, b, fa));
        assert(elems_upto(s, sep_end(s, b1), j, vs.drop_first(), fl, fb1, fj));
        assert(parses_to(s, ws_end(s, i), b1, fl, fi, fb1, vs.first()));
        assert(value_sep_ok(s, b1, vs.first()));
        assert(boundary(b1, fb1, fi));
    }
}

/// Peels the first member off a rendered member list.
pub proof fn lemma_members_peel(
    s: Seq<char>,
    i: int,
    j: int,
    ms: Seq<Member>,
    fl: Seq<Option<u64>>,
    fi: int,
    fj: int,
)
    requires
        members_upto(s, i, j, ms, fl, fi, fj),
        ms.len() > 0,
        0 <= i <= s.len(),
    ensures
        exists|b: int, fb: int|
            #[trigger] boundary(b, fb, fi) && member_parses_to(
                s,
                ws_end(s, i),
                b,
                fl,
                fi,
                fb,
                ms.first(),
            ) && 0 <= b <= s.len() && members_upto(
                s,
                sep_end(s, b),
                j,
                ms.drop_first(),
                fl,
                fb,
                fj,
            ),
    decreases ms, 2int,
{
    let (a, b, fa) = choose|a: int, b: int, fa: int|
        #[trigger] boundary(a, b, fa) && members_upto(s, i, a, ms.drop_last(), fl, fi, fa)
            && member_parses_to(s, a, b, fl, fa, fj, ms.last()) && j == sep_end(s, b);
    assert(0 <= b <= s.len()) by {
        let (b1x, a2x) = choose|b1x: int, a2x: int|
            {
                &&& #[trigger] boundary(b1x, a2x, fa)
                &&& 0 <= a < s.len()
                &&& s[a] == '"'
                &&& str_scan(s, a + 1) == Some((ms.last().key, b1x))
                &&& ws_end(s, b1x) < s.len()
                &&& s[ws_end(s, b1x)] == ':'
                &&& a2x == ws_end(s, ws_end(s, b1x) + 1)
                &&& parses_to(s, a2x, b, fl, fa, fj, ms.last().val)
                &&& value_sep_ok(s, b, ms.last().val)
            };
        assert(parses_to(s, a2x, b, fl, fa, fj, ms.last().val));
    }
    if ms.len() == 1 {
        assert(ms.first() == ms.last());
        lemma_sep_end_fix(s, b);
        assert(member_parses_to(s, ws_end(s, i), b, fl, fi, fj, ms.first()));
        assert(members_upto(s, sep_end(s, b), j, ms.drop_first(), fl, fj, fj));
        assert(boundary(b, fj, fi));
    } else {
        lemma_members_peel(s, i, a, ms.drop_last(), fl, fi, fa);
        let (b1, fb1) = choose|b1: int, fb1: int|
            #[trigger] boundary(b1, fb1, fi) && member_parses_to(
                s,
                ws_end(s, i),
                b1,
                fl,
                fi,
                fb1,
                ms.drop_last().first(),
            ) && 0 <= b1 <= s.len() && members_upto(
                s,
                sep_end(s, b1),
                a,
                ms.drop_last().drop_first(),
                fl,
                fb1,
                fa,
            );
        assert(ms.drop_first().drop_last() =~= ms.drop_last().drop_first());
        assert(ms.drop_first().last() == ms.last());
        assert(ms.drop_last().first() == ms.first());
        assert(members_upto(s, sep_end(s, b1), a, ms.drop_first().drop_last(), fl, fb1, fa));
        assert(member_parses_to(s, a, b, fl, fa, fj, ms.drop_first().last()));
        assert(boundary(a, b, fa));
        assert(members_upto(s, sep_end(s, b1), j, ms.drop_first(), fl, fb1, fj));
        assert(member_parses_to(s, ws_end(s, i), b1, fl, fi, fb1, ms.first()));
        assert(boundary(b1, fb1, fi));
    }
}

/// Unpacks what a rendered member pins down: the key from the scan, the
/// colon, and the value's rendering after it.
pub proof fn lemma_member_witness(
    s: Seq<char>,
    i: int,
    j: int,
    fl: Seq<Option<u64>>,
    fi: int,
    fj: int,
    m: Member,
)
    requires
        member_parses_to(s, i, j, fl, fi, fj, m),
    ensures
        0 <= i < s.len() && s[i] == '"',
        match str_scan(s, i + 1) {
            Some((k, b1)) => k == m.key && ws_end(s, b1) < s.len() && s[ws_end(s, b1)] == ':'
                && parses_to(s, ws_end(s, ws_end(s, b1) + 1), j, fl, fi, fj, m.val)
                && value_sep_ok(s, j, m.val),
            None => false,
        },
{
    let (b1, a2) = choose|b1: int, a2: int|
        {
            &&& #[trigger] boundary(b1, a2, fi)
            &&& 0 <= i < s.len()
            &&& s[i] == '"'
            &&& str_scan(s, i + 1) == Some((m.key, b1))
            &&& ws_end(s, b1) < s.len()
            &&& s[ws_end(s, b1)] == ':'
            &&& a2 == ws_end(s, ws_end(s, b1) + 1)
            &&& parses_to(s, a2, j, fl, fi, fj, m.val)
            &&& value_sep_ok(s, j, m.val)
        };
    assert(str_scan(s, i + 1) == Some((m.key, b1)));
}

} // verus!
