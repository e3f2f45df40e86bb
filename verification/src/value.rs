//! The mathematical model of a JSON document.
//!
//! `JsonVal` is the specification-level value a document denotes.  Numbers
//! keep the distinctions the encoder cares about: non-negative integers
//! (`UInt`), negative integers by their magnitude (`NInt`), and non-integer
//! numbers by the IEEE-754 bit pattern of their 64-bit float value
//! (`Float`).  Strings carry their decoded content as UTF-8 bytes.

use vstd::prelude::*;

verus! {

/// One object member: a key (decoded string content, UTF-8 bytes) and a value.
pub struct Member {
    pub key: Seq<u8>,
    pub val: JsonVal,
}

/// A JSON value, as the grammar and the encoder see it.
pub enum JsonVal {
    Null,
    False,
    True,
    /// A non-negative integer.
    UInt(u64),
    /// A negative integer `-m`, held by its magnitude `m` (`1 <= m <= 2^63`).
    NInt(u64),
    /// A non-integer number, held as the bit pattern of its 64-bit float.
    Float(u64),
    /// A string, held as its decoded content in UTF-8 bytes.
    Str(Seq<u8>),
    Arr(Seq<JsonVal>),
    Obj(Seq<Member>),
}

impl JsonVal {
    /// Values that are encoded from a bare number token.
    pub open spec fn is_number(self) -> bool {
        self is UInt || self is NInt || self is Float
    }

    /// Scalars: everything but arrays and objects.
    pub open spec fn is_scalar(self) -> bool {
        !(self is Arr) && !(self is Obj)
    }
}

} // verus!
