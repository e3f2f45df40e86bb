//! The MessagePack wire format, as a specification.
//!
//! `msgpack_bytes` gives, for every [`JsonVal`], the exact byte sequence the
//! library emits for it: the minimal-size representation under the format's
//! size tiers, with all multi-byte lengths and values big-endian.

use vstd::prelude::*;
use crate::value::{JsonVal, Member};

verus! {

/// The two big-endian bytes of a 16-bit value.
pub open spec fn be2(n: u16) -> Seq<u8> {
    seq![(n >> 8) as u8, n as u8]
}

/// The four big-endian bytes of a 32-bit value.
pub open spec fn be4(n: u32) -> Seq<u8> {
    seq![(n >> 24) as u8, (n >> 16) as u8, (n >> 8) as u8, n as u8]
}

/// The eight big-endian bytes of a 64-bit value.
pub open spec fn be8(n: u64) -> Seq<u8> {
    seq![
        (n >> 56) as u8, (n >> 48) as u8, (n >> 40) as u8, (n >> 32) as u8,
        (n >> 24) as u8, (n >> 16) as u8, (n >> 8) as u8, n as u8,
    ]
}

/// The value read back from two big-endian bytes.
pub open spec fn be2_val(b0: u8, b1: u8) -> int {
    b0 * 0x100 + b1
}

/// The value read back from four big-endian bytes.
pub open spec fn be4_val(b0: u8, b1: u8, b2: u8, b3: u8) -> int {
    b0 * 0x100_0000 + b1 * 0x1_0000 + b2 * 0x100 + b3
}

/// The value read back from eight big-endian bytes.
pub open spec fn be8_val(b: Seq<u8>) -> int {
    b[0] * 0x100_0000_0000_0000 + b[1] * 0x1_0000_0000_0000 + b[2] * 0x100_0000_0000
        + b[3] * 0x1_0000_0000 + b[4] * 0x100_0000 + b[5] * 0x1_0000 + b[6] * 0x100 + b[7]
}

/// Minimal encoding of a non-negative integer: positive fixint, then the
/// unsigned 8/16/32/64-bit forms.
pub open spec fn uint_bytes(n: u64) -> Seq<u8> {
    if n < 0x80 {
        seq![n as u8]
    } else if n <= 0xff {
        seq![0xccu8, n as u8]
    } else if n <= 0xffff {
        seq![0xcdu8] + be2(n as u16)
    } else if n <= 0xffff_ffff {
        seq![0xceu8] + be4(n as u32)
    } else {
        seq![0xcfu8] + be8(n)
    }
}

/// Minimal encoding of the negative integer `-m` (`1 <= m <= 2^63`): the
/// signed 8/16/32/64-bit forms, each holding the two's complement of `m`.
pub open spec fn nint_bytes(m: u64) -> Seq<u8> {
    if m <= 0x80 {
        seq![0xd0u8, (0x100 - m) as u8]
    } else if m <= 0x8000 {
        seq![0xd1u8] + be2((0x1_0000 - m) as u16)
    } else if m <= 0x8000_0000 {
        seq![0xd2u8] + be4((0x1_0000_0000 - m) as u32)
    } else {
        seq![0xd3u8] + be8((u64::MAX - m + 1) as u64)
    }
}

/// Minimal string header for a content length of `n` bytes.
pub open spec fn str_header(n: int) -> Seq<u8> {
    if n <= 0x1f {
        seq![(0xa0 + n) as u8]
    } else if n <= 0xff {
        seq![0xd9u8, n as u8]
    } else if n <= 0xffff {
        seq![0xdau8] + be2(n as u16)
    } else {
        seq![0xdbu8] + be4(n as u32)
    }
}

/// A whole string: minimal header, then the UTF-8 content bytes.
pub open spec fn str_encoding(content: Seq<u8>) -> Seq<u8> {
    str_header(content.len() as int) + content
}

/// Minimal array header for an element count of `n`.
pub open spec fn arr_header(n: int) -> Seq<u8> {
    if n <= 0xf {
        seq![(0x90 + n) as u8]
    } else if n <= 0xffff {
        seq![0xdcu8] + be2(n as u16)
    } else {
        seq![0xddu8] + be4(n as u32)
    }
}

/// Minimal map header for a member count of `n`.
pub open spec fn map_header(n: int) -> Seq<u8> {
    if n <= 0xf {
        seq![(0x80 + n) as u8]
    } else if n <= 0xffff {
        seq![0xdeu8] + be2(n as u16)
    } else {
        seq![0xdfu8] + be4(n as u32)
    }
}

/// The MessagePack encoding of a value.
pub open spec fn msgpack_bytes(v: JsonVal) -> Seq<u8>
    decreases v, 0int,
{
    match v {
        JsonVal::Null => seq![0xc0u8],
        JsonVal::False => seq![0xc2u8],
        JsonVal::True => seq![0xc3u8],
        JsonVal::UInt(n) => uint_bytes(n),
        JsonVal::NInt(m) => nint_bytes(m),
        JsonVal::Float(bits) => seq![0xcbu8] + be8(bits),
        JsonVal::Str(content) => str_encoding(content),
        JsonVal::Arr(vs) => arr_header(vs.len() as int) + encode_seq(vs, 0),
        JsonVal::Obj(ms) => map_header(ms.len() as int) + encode_members(ms, 0),
    }
}

/// The concatenated encodings of the elements `vs[k..]`.
pub open spec fn encode_seq(vs: Seq<JsonVal>, k: int) -> Seq<u8>
    decreases vs, vs.len() - k,
{
    if k < 0 || k >= vs.len() {
        Seq::<u8>::empty()
    } else {
        msgpack_bytes(vs[k]) + encode_seq(vs, k + 1)
    }
}

/// The concatenated encodings of the members `ms[k..]`: each member is its
/// key as a string encoding, then its value.
pub open spec fn encode_members(ms: Seq<Member>, k: int) -> Seq<u8>
    decreases ms, ms.len() - k,
{
    if k < 0 || k >= ms.len() {
        Seq::<u8>::empty()
    } else {
        str_encoding(ms[k].key) + msgpack_bytes(ms[k].val) + encode_members(ms, k + 1)
    }
}

/// What a conformant MessagePack decoder reads back from one encoded
/// scalar: the format tag selects the representation, lengths and values
/// are big-endian, and signed forms hold two's complement.
pub open spec fn decode_value(b: Seq<u8>) -> Option<JsonVal> {
    if b.len() == 0 {
        None
    } else {
        let t = b[0];
        if t < 0x80 {
            if b.len() == 1 {
                Some(JsonVal::UInt(t as u64))
            } else {
                None
            }
        } else if t == 0xc0 {
            if b.len() == 1 {
                Some(JsonVal::Null)
            } else {
                None
            }
        } else if t == 0xc2 {
            if b.len() == 1 {
                Some(JsonVal::False)
            } else {
                None
            }
        } else if t == 0xc3 {
            if b.len() == 1 {
                Some(JsonVal::True)
            } else {
                None
            }
        } else if t == 0xcc {
            if b.len() == 2 {
                Some(JsonVal::UInt(b[1] as u64))
            } else {
                None
            }
        } else if t == 0xcd {
            if b.len() == 3 {
                Some(JsonVal::UInt(be2_val(b[1], b[2]) as u64))
            } else {
                None
            }
        } else if t == 0xce {
            if b.len() == 5 {
                Some(JsonVal::UInt(be4_val(b[1], b[2], b[3], b[4]) as u64))
            } else {
                None
            }
        } else if t == 0xcf {
            if b.len() == 9 {
                Some(JsonVal::UInt(be8_val(b.skip(1)) as u64))
            } else {
                None
            }
        } else if t == 0xd0 {
            if b.len() == 2 {
                if b[1] >= 0x80 {
                    Some(JsonVal::NInt((0x100 - b[1]) as u64))
                } else {
                    Some(JsonVal::UInt(b[1] as u64))
                }
            } else {
                None
            }
        } else if t == 0xd1 {
            if b.len() == 3 {
                if be2_val(b[1], b[2]) >= 0x8000 {
                    Some(JsonVal::NInt((0x1_0000 - be2_val(b[1], b[2])) as u64))
                } else {
                    Some(JsonVal::UInt(be2_val(b[1], b[2]) as u64))
                }
            } else {
                None
            }
        } else if t == 0xd2 {
            if b.len() == 5 {
                if be4_val(b[1], b[2], b[3], b[4]) >= 0x8000_0000 {
                    Some(JsonVal::NInt((0x1_0000_0000 - be4_val(b[1], b[2], b[3], b[4])) as u64))
                } else {
                    Some(JsonVal::UInt(be4_val(b[1], b[2], b[3], b[4]) as u64))
                }
            } else {
                None
            }
        } else if t == 0xd3 {
            if b.len() == 9 {
                if be8_val(b.skip(1)) >= 0x8000_0000_0000_0000 {
                    Some(JsonVal::NInt((0x1_0000_0000_0000_0000 - be8_val(b.skip(1))) as u64))
                } else {
                    Some(JsonVal::UInt(be8_val(b.skip(1)) as u64))
                }
            } else {
                None
            }
        } else if t == 0xcb {
            if b.len() == 9 {
                Some(JsonVal::Float(be8_val(b.skip(1)) as u64))
            } else {
                None
            }
        } else if 0xa0 <= t && t <= 0xbf {
            if b.len() == 1 + (t - 0xa0) {
                Some(JsonVal::Str(b.skip(1)))
            } else {
                None
            }
        } else if t == 0xd9 {
            if b.len() >= 2 && b.len() == 2 + b[1] {
                Some(JsonVal::Str(b.skip(2)))
            } else {
                None
            }
        } else if t == 0xda {
            if b.len() >= 3 && b.len() == 3 + be2_val(b[1], b[2]) {
                Some(JsonVal::Str(b.skip(3)))
            } else {
                None
            }
        } else if t == 0xdb {
            if b.len() >= 5 && b.len() == 5 + be4_val(b[1], b[2], b[3], b[4]) {
                Some(JsonVal::Str(b.skip(5)))
            } else {
                None
            }
        } else {
            None
        }
    }
}

/// The scalars the encoder can produce: every integer the trials accept and
/// every string under the 32-bit length ceiling.
pub open spec fn scalar_wf(v: JsonVal) -> bool {
    match v {
        JsonVal::NInt(m) => 1 <= m <= 0x8000_0000_0000_0000u64,
        JsonVal::Str(c) => c.len() <= 0xffff_ffff,
        JsonVal::Arr(_) => false,
        JsonVal::Obj(_) => false,
        _ => true,
    }
}

/// Big-endian bytes read back to the value they were made from.
proof fn lemma_be2_round_trip(n: u16)
    ensures
        be2_val((n >> 8) as u8, n as u8) == n,
{
    assert((((n >> 8) as u8) as u16) * 0x100 + ((n as u8) as u16) == n) by (bit_vector);
}

proof fn lemma_be4_round_trip(n: u32)
    ensures
        be4_val((n >> 24) as u8, (n >> 16) as u8, (n >> 8) as u8, n as u8) == n,
{
    assert((((n >> 24) as u8) as u32) * 0x100_0000 + (((n >> 16) as u8) as u32) * 0x1_0000 + (((n
        >> 8) as u8) as u32) * 0x100 + ((n as u8) as u32) == n) by (bit_vector);
}

proof fn lemma_be8_round_trip(n: u64)
    ensures
        be8_val(be8(n)) == n,
{
    assert((((n >> 56) as u8) as u64) * 0x100_0000_0000_0000 + (((n >> 48) as u8) as u64)
        * 0x1_0000_0000_0000 + (((n >> 40) as u8) as u64) * 0x100_0000_0000 + (((n >> 32) as u8)
        as u64) * 0x1_0000_0000 + (((n >> 24) as u8) as u64) * 0x100_0000 + (((n >> 16) as u8)
        as u64) * 0x1_0000 + (((n >> 8) as u8) as u64) * 0x100 + ((n as u8) as u64) == n)
        by (bit_vector);
}

/// Every encoded scalar reads back, through a conformant decoder, as a
/// value structurally equal to the one that was encoded: numbers by value,
/// strings by decoded content.
#[verifier::rlimit(80)]
pub proof fn lemma_scalar_round_trip(v: JsonVal)
    requires
        v.is_scalar(),
        scalar_wf(v),
    ensures
        decode_value(msgpack_bytes(v)) == Some(v),
{
    match v {
        JsonVal::UInt(n) => {
            if n <= 0xff {
            } else if n <= 0xffff {
                lemma_be2_round_trip(n as u16);
                assert((seq![0xcdu8] + be2(n as u16))[1] == be2(n as u16)[0]);
                assert((seq![0xcdu8] + be2(n as u16))[2] == be2(n as u16)[1]);
            } else if n <= 0xffff_ffff {
                lemma_be4_round_trip(n as u32);
                assert((seq![0xceu8] + be4(n as u32))[1] == be4(n as u32)[0]);
                assert((seq![0xceu8] + be4(n as u32))[2] == be4(n as u32)[1]);
                assert((seq![0xceu8] + be4(n as u32))[3] == be4(n as u32)[2]);
                assert((seq![0xceu8] + be4(n as u32))[4] == be4(n as u32)[3]);
            } else {
                lemma_be8_round_trip(n);
                assert((seq![0xcfu8] + be8(n)).skip(1) =~= be8(n));
            }
        },
        JsonVal::NInt(m) => {
            if m <= 0x80 {
            } else if m <= 0x8000 {
                lemma_be2_round_trip((0x1_0000 - m) as u16);
                assert((seq![0xd1u8] + be2((0x1_0000 - m) as u16))[1] == be2(
                    (0x1_0000 - m) as u16,
                )[0]);
                assert((seq![0xd1u8] + be2((0x1_0000 - m) as u16))[2] == be2(
                    (0x1_0000 - m) as u16,
                )[1]);
            } else if m <= 0x8000_0000 {
                lemma_be4_round_trip((0x1_0000_0000 - m) as u32);
                assert((seq![0xd2u8] + be4((0x1_0000_0000 - m) as u32))[1] == be4(
                    (0x1_0000_0000 - m) as u32,
                )[0]);
                assert((seq![0xd2u8] + be4((0x1_0000_0000 - m) as u32))[2] == be4(
                    (0x1_0000_0000 - m) as u32,
                )[1]);
                assert((seq![0xd2u8] + be4((0x1_0000_0000 - m) as u32))[3] == be4(
                    (0x1_0000_0000 - m) as u32,
                )[2]);
                assert((seq![0xd2u8] + be4((0x1_0000_0000 - m) as u32))[4] == be4(
                    (0x1_0000_0000 - m) as u32,
                )[3]);
            } else {
                lemma_be8_round_trip((u64::MAX - m + 1) as u64);
                assert((seq![0xd3u8] + be8((u64::MAX - m + 1) as u64)).skip(1) =~= be8(
                    (u64::MAX - m + 1) as u64,
                ));
            }
        },
        JsonVal::Float(bits) => {
            lemma_be8_round_trip(bits);
            assert((seq![0xcbu8] + be8(bits)).skip(1) =~= be8(bits));
        },
        JsonVal::Str(c) => {
            let n = c.len() as int;
            if n <= 0x1f {
                assert((str_header(n) + c).skip(1) =~= c);
            } else if n <= 0xff {
                assert((str_header(n) + c).skip(2) =~= c);
            } else if n <= 0xffff {
                lemma_be2_round_trip(n as u16);
                assert((str_header(n) + c)[1] == be2(n as u16)[0]);
                assert((str_header(n) + c)[2] == be2(n as u16)[1]);
                assert((str_header(n) + c).skip(3) =~= c);
            } else {
                lemma_be4_round_trip(n as u32);
                assert((str_header(n) + c)[1] == be4(n as u32)[0]);
                assert((str_header(n) + c)[2] == be4(n as u32)[1]);
                assert((str_header(n) + c)[3] == be4(n as u32)[2]);
                assert((str_header(n) + c)[4] == be4(n as u32)[3]);
                assert((str_header(n) + c).skip(5) =~= c);
            }
        },
        _ => {},
    }
}

/// Integer minimality: a non-negative integer takes one byte as long as it
/// fits a positive fixint, and otherwise the smallest unsigned form that
/// holds it.
pub proof fn lemma_uint_minimality(n: u64)
    ensures
        n < 0x80 ==> msgpack_bytes(JsonVal::UInt(n)) == seq![n as u8],
        0x80 <= n <= 0xff ==> msgpack_bytes(JsonVal::UInt(n)) == seq![0xccu8, n as u8],
        0xff < n <= 0xffff ==> msgpack_bytes(JsonVal::UInt(n)).len() == 3,
        0xffff < n <= 0xffff_ffff ==> msgpack_bytes(JsonVal::UInt(n)).len() == 5,
        0xffff_ffff < n ==> msgpack_bytes(JsonVal::UInt(n)).len() == 9,
{
}

/// Integer minimality for negatives: `-m` takes the smallest signed form
/// that holds it, two bytes for the whole single-byte range (the compact
/// negative fixint is never chosen).
pub proof fn lemma_nint_minimality(m: u64)
    requires
        1 <= m <= 0x8000_0000_0000_0000u64,
    ensures
        m <= 0x80 ==> msgpack_bytes(JsonVal::NInt(m)) == seq![0xd0u8, (0x100 - m) as u8],
        0x80 < m <= 0x8000 ==> msgpack_bytes(JsonVal::NInt(m)).len() == 3,
        0x8000 < m <= 0x8000_0000 ==> msgpack_bytes(JsonVal::NInt(m)).len() == 5,
        0x8000_0000 < m ==> msgpack_bytes(JsonVal::NInt(m)).len() == 9,
{
}

/// String minimality: the header is a single byte up to 31 content bytes,
/// and otherwise the smallest of the 8/16/32-bit length forms.
pub proof fn lemma_str_minimality(c: Seq<u8>)
    requires
        c.len() <= 0xffff_ffff,
    ensures
        c.len() <= 0x1f ==> msgpack_bytes(JsonVal::Str(c)) == seq![(0xa0 + c.len()) as u8] + c,
        0x1f < c.len() <= 0xff ==> msgpack_bytes(JsonVal::Str(c)) == seq![
            0xd9u8,
            c.len() as u8,
        ] + c,
        0xff < c.len() <= 0xffff ==> msgpack_bytes(JsonVal::Str(c)).len() == 3 + c.len(),
        0xffff < c.len() ==> msgpack_bytes(JsonVal::Str(c)).len() == 5 + c.len(),
{
}

/// Container minimality: up to 15 elements or members the header is the
/// single fixarray/fixmap byte, then the 16-bit and 32-bit count forms.
pub proof fn lemma_container_minimality(n: int)
    requires
        0 <= n <= 0xffff_ffff,
    ensures
        n <= 0xf ==> arr_header(n) == seq![(0x90 + n) as u8] && map_header(n) == seq![
            (0x80 + n) as u8,
        ],
        0xf < n <= 0xffff ==> arr_header(n) == seq![0xdcu8] + be2(n as u16) && map_header(n)
            == seq![0xdeu8] + be2(n as u16),
        0xffff < n ==> arr_header(n).len() == 5 && map_header(n).len() == 5,
{
}

/// Nesting: a two-element array is its header followed by the two element
/// encodings in order, with nothing interleaved.
pub proof fn lemma_nesting(a: JsonVal, b: JsonVal)
    ensures
        msgpack_bytes(JsonVal::Arr(seq![a, b])) == arr_header(2) + msgpack_bytes(a)
            + msgpack_bytes(b),
{
    let vs = seq![a, b];
    assert(vs[0] == a);
    assert(vs[1] == b);
    assert(encode_seq(vs, 2) =~= Seq::<u8>::empty());
    assert(encode_seq(vs, 1) =~= msgpack_bytes(b));
    assert(encode_seq(vs, 0) =~= msgpack_bytes(a) + msgpack_bytes(b));
    assert(msgpack_bytes(JsonVal::Arr(vs)) =~= arr_header(2) + msgpack_bytes(a)
        + msgpack_bytes(b));
}

/// Appending an element to the back extends the concatenated encoding at the back.
pub proof fn lemma_encode_seq_push(vs: Seq<JsonVal>, v: JsonVal, k: int)
    requires
        0 <= k <= vs.len(),
    ensures
        encode_seq(vs.push(v), k) == encode_seq(vs, k) + msgpack_bytes(v),
    decreases vs.len() - k,
{
    let vs2 = vs.push(v);
    if k == vs.len() {
        assert(vs2[k] == v);
        assert(encode_seq(vs2, k + 1) =~= Seq::<u8>::empty());
        assert(encode_seq(vs2, k) =~= encode_seq(vs, k) + msgpack_bytes(v));
    } else {
        lemma_encode_seq_push(vs, v, k + 1);
        assert(vs2[k] == vs[k]);
        assert(encode_seq(vs2, k) =~= encode_seq(vs, k) + msgpack_bytes(v));
    }
}

/// Appending a member to the back extends the concatenated encoding at the back.
pub proof fn lemma_encode_members_push(ms: Seq<Member>, m: Member, k: int)
    requires
        0 <= k <= ms.len(),
    ensures
        encode_members(ms.push(m), k) == encode_members(ms, k) + str_encoding(m.key)
            + msgpack_bytes(m.val),
    decreases ms.len() - k,
{
    let ms2 = ms.push(m);
    if k == ms.len() {
        assert(ms2[k] == m);
        assert(encode_members(ms2, k + 1) =~= Seq::<u8>::empty());
        assert(encode_members(ms2, k) =~= encode_members(ms, k) + str_encoding(m.key)
            + msgpack_bytes(m.val));
    } else {
        lemma_encode_members_push(ms, m, k + 1);
        assert(ms2[k] == ms[k]);
        assert(encode_members(ms2, k) =~= encode_members(ms, k) + str_encoding(m.key)
            + msgpack_bytes(m.val));
    }
}

} // verus!
