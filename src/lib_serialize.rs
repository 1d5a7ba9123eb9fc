//! The tagged binary format ("LibSerialize"), version 1.
//!
//! Each element starts with one byte whose low bits say how to read it:
//! `xxxx_xxx1` a 7-bit non-negative integer, `cccc_tt10` an embedded string
//! or table with a 4-bit count, `nnnn_s100` a 12-bit signed integer whose
//! upper bits follow in the next byte, `ttttt_000` a wide element.
use vstd::prelude::*;

use crate::error::CodecError;
use crate::number::{
    exponent_field, fraction_field, integral_value, small_integer, EXPONENT_UNIT, MAX_PACKED_INT,
    SIGN_BIT,
};
use crate::value::{same_key, Lua};

pub mod deserialization;
pub mod serialization;

pub use deserialization::Deserializer;
pub use serialization::Serializer;

verus! {

/// The minor version that opens every stream.
pub const MINOR: u8 = 1;

/// The wide type tags, in the order of their numbers.
pub const TAG_NULL: u8 = 0;
pub const TAG_INT16_POS: u8 = 1;
pub const TAG_INT16_NEG: u8 = 2;
pub const TAG_INT24_POS: u8 = 3;
pub const TAG_INT24_NEG: u8 = 4;
pub const TAG_INT32_POS: u8 = 5;
pub const TAG_INT32_NEG: u8 = 6;
pub const TAG_INT64_POS: u8 = 7;
pub const TAG_INT64_NEG: u8 = 8;
pub const TAG_FLOAT: u8 = 9;
pub const TAG_FLOATSTR_POS: u8 = 10;
pub const TAG_FLOATSTR_NEG: u8 = 11;
pub const TAG_TRUE: u8 = 12;
pub const TAG_FALSE: u8 = 13;
pub const TAG_STR8: u8 = 14;
pub const TAG_STR16: u8 = 15;
pub const TAG_STR24: u8 = 16;
pub const TAG_MAP8: u8 = 17;
pub const TAG_MAP16: u8 = 18;
pub const TAG_MAP24: u8 = 19;
pub const TAG_ARRAY8: u8 = 20;
pub const TAG_ARRAY16: u8 = 21;
pub const TAG_ARRAY24: u8 = 22;
pub const TAG_MIXED8: u8 = 23;
pub const TAG_MIXED16: u8 = 24;
pub const TAG_MIXED24: u8 = 25;
pub const TAG_STRREF8: u8 = 26;
pub const TAG_STRREF16: u8 = 27;
pub const TAG_STRREF24: u8 = 28;
pub const TAG_MAPREF8: u8 = 29;
pub const TAG_MAPREF16: u8 = 30;
pub const TAG_MAPREF24: u8 = 31;

/// The embedded type tags.
pub const EMBEDDED_STR: u8 = 0;
pub const EMBEDDED_MAP: u8 = 1;
pub const EMBEDDED_ARRAY: u8 = 2;
pub const EMBEDDED_MIXED: u8 = 3;

/// How deep containers may nest.
pub const MAX_DEPTH: usize = 128;

/// The number of big-endian bytes that hold `v`: 1, 2, 3, 4 or 7.
pub open spec fn spec_required_bytes(v: nat) -> nat {
    if v < 0x100 {
        1
    } else if v < 0x1_0000 {
        2
    } else if v < 0x100_0000 {
        3
    } else if v < 0x1_0000_0000 {
        4
    } else {
        7
    }
}

/// The last `n` bytes of `v` in big-endian order.
pub open spec fn be_bytes(v: nat, n: nat) -> Seq<u8>
    decreases n,
{
    if n == 0 {
        seq![]
    } else {
        be_bytes(v / 256, (n - 1) as nat).push((v % 256) as u8)
    }
}

/// The byte of a wide element with tag `tag`.
pub open spec fn wide(tag: int) -> u8 {
    (tag * 8) as u8
}

/// The byte of an embedded element of type `tag` and count `count`.
pub open spec fn embedded(tag: int, count: int) -> u8 {
    (count * 16 + tag * 4 + 2) as u8
}

/// The encoding of the whole number `v`, where `|v| <= 2^56 - 1`.
pub open spec fn int_bytes(v: int) -> Seq<u8> {
    let m: nat = if v < 0 {
        (-v) as nat
    } else {
        v as nat
    };
    let neg: int = if v < 0 {
        1
    } else {
        0
    };
    if 0 <= v < 128 {
        seq![(2 * v + 1) as u8]
    } else if -4096 < v < 4096 {
        let w = 16 * m + 8 * neg + 4;
        seq![(w % 256) as u8, (w / 256) as u8]
    } else {
        let n = spec_required_bytes(m);
        let tag = if n == 2 {
            TAG_INT16_POS
        } else if n == 3 {
            TAG_INT24_POS
        } else if n == 4 {
            TAG_INT32_POS
        } else {
            TAG_INT64_POS
        };
        seq![wide(tag + neg)] + be_bytes(m, n)
    }
}

/// The encoding of the number with bit pattern `bits`: whole numbers of
/// magnitude at most `2^56 - 1` as integers, everything else as a `Float`.
pub open spec fn number_bytes(bits: u64) -> Seq<u8> {
    match small_integer(bits) {
        Some(v) => int_bytes(v),
        None => seq![wide(TAG_FLOAT as int)] + be_bytes(bits as nat, 8),
    }
}

/// The header of a string or table of `len` items, whose embedded tag is
/// `etag` and whose 8-bit wide tag is `tag8`; longer forms follow `tag8`.
pub open spec fn count_header(len: nat, etag: int, tag8: int, too_large: CodecError) -> Result<
    Seq<u8>,
    CodecError,
> {
    if len < 16 {
        Ok(seq![embedded(etag, len as int)])
    } else if spec_required_bytes(len) <= 3 {
        Ok(seq![wide(tag8 + spec_required_bytes(len) - 1)] + be_bytes(len, spec_required_bytes(len)))
    } else {
        Err(too_large)
    }
}

/// The position of the first occurrence of `s` in `refs`.
pub open spec fn first_index(refs: Seq<Seq<u8>>, s: Seq<u8>) -> Option<nat>
    decreases refs.len(),
{
    if refs.len() == 0 {
        None
    } else {
        match first_index(refs.drop_last(), s) {
            Some(i) => Some(i),
            None => if refs.last() == s {
                Some((refs.len() - 1) as nat)
            } else {
                None
            },
        }
    }
}

/// What a string `s` is written as, given the strings seen so far, and the
/// strings seen after it. Strings longer than two bytes are remembered; a
/// remembered string is written as a reference to its 1-based position.
pub open spec fn string_bytes(s: Seq<u8>, refs: Seq<Seq<u8>>) -> Result<
    (Seq<u8>, Seq<Seq<u8>>),
    CodecError,
> {
    match first_index(refs, s) {
        Some(p) => {
            let index = p + 1;
            if spec_required_bytes(index) <= 3 {
                Ok(
                    (
                        seq![wide(TAG_STRREF8 + spec_required_bytes(index) - 1)] + be_bytes(
                            index,
                            spec_required_bytes(index),
                        ),
                        refs,
                    ),
                )
            } else {
                Err(CodecError::TooLarge)
            }
        },
        None => match count_header(
            s.len(),
            EMBEDDED_STR as int,
            TAG_STR8 as int,
            CodecError::StringTooLarge,
        ) {
            Ok(h) => Ok(
                (
                    h + s,
                    if s.len() > 2 {
                        refs.push(s)
                    } else {
                        refs
                    },
                ),
            ),
            Err(e) => Err(e),
        },
    }
}

/// The encoding of `v` with `depth` levels of nesting left and the strings
/// `refs` seen so far, and the strings seen after it.
pub open spec fn ser(v: Lua, depth: int, refs: Seq<Seq<u8>>) -> Result<
    (Seq<u8>, Seq<Seq<u8>>),
    CodecError,
>
    decreases v,
{
    match v {
        Lua::Null => Ok((seq![wide(TAG_NULL as int)], refs)),
        Lua::Boolean(b) => Ok(
            (
                seq![
                    if b {
                        wide(TAG_TRUE as int)
                    } else {
                        wide(TAG_FALSE as int)
                    },
                ],
                refs,
            ),
        ),
        Lua::Number(bits) => Ok((number_bytes(bits), refs)),
        Lua::Str(s) => string_bytes(s, refs),
        Lua::Array(items) => match count_header(
            items.len(),
            EMBEDDED_ARRAY as int,
            TAG_ARRAY8 as int,
            CodecError::TooLarge,
        ) {
            Ok(h) => match ser_items(items, depth, refs) {
                Ok((b, r)) => Ok((h + b, r)),
                Err(e) => Err(e),
            },
            Err(e) => Err(e),
        },
        Lua::Mapping(pairs) => match count_header(
            pairs.len(),
            EMBEDDED_MAP as int,
            TAG_MAP8 as int,
            CodecError::TooLarge,
        ) {
            Ok(h) => match ser_pairs(pairs, depth, refs) {
                Ok((b, r)) => Ok((h + b, r)),
                Err(e) => Err(e),
            },
            Err(e) => Err(e),
        },
    }
}

/// The encoding of the items of an array, one level down.
pub open spec fn ser_items(items: Seq<Lua>, depth: int, refs: Seq<Seq<u8>>) -> Result<
    (Seq<u8>, Seq<Seq<u8>>),
    CodecError,
>
    decreases items,
{
    if items.len() == 0 {
        Ok((seq![], refs))
    } else {
        match ser_items(items.drop_last(), depth, refs) {
            Ok((b, r)) => if depth <= 1 {
                Err(CodecError::RecursionLimit)
            } else {
                match ser(items.last(), depth - 1, r) {
                    Ok((c, r2)) => Ok((b + c, r2)),
                    Err(e) => Err(e),
                }
            },
            Err(e) => Err(e),
        }
    }
}

/// The encoding of the key/value pairs of a map, one level down.
pub open spec fn ser_pairs(pairs: Seq<(Lua, Lua)>, depth: int, refs: Seq<Seq<u8>>) -> Result<
    (Seq<u8>, Seq<Seq<u8>>),
    CodecError,
>
    decreases pairs,
{
    if pairs.len() == 0 {
        Ok((seq![], refs))
    } else {
        match ser_pairs(pairs.drop_last(), depth, refs) {
            Ok((b, r)) => if depth <= 1 {
                Err(CodecError::RecursionLimit)
            } else {
                match ser(pairs.last().0, depth - 1, r) {
                    Ok((c, r2)) => match ser(pairs.last().1, depth - 1, r2) {
                        Ok((d, r3)) => Ok((b + c + d, r3)),
                        Err(e) => Err(e),
                    },
                    Err(e) => Err(e),
                }
            },
            Err(e) => Err(e),
        }
    }
}

/// The binary stream of `v`: the minor version, then the element.
pub open spec fn lib_encoding(v: Lua) -> Result<Seq<u8>, CodecError> {
    match ser(v, MAX_DEPTH as int, seq![]) {
        Ok((b, _)) => Ok(seq![MINOR] + b),
        Err(e) => Err(e),
    }
}

/// An error in the first `k` items is the error of the whole array.
pub proof fn lemma_ser_items_err(items: Seq<Lua>, k: int, depth: int, refs: Seq<Seq<u8>>)
    requires
        0 <= k <= items.len(),
        ser_items(items.subrange(0, k), depth, refs) is Err,
    ensures
        ser_items(items, depth, refs) == ser_items(items.subrange(0, k), depth, refs),
    decreases items.len(),
{
    if k < items.len() {
        assert(items.drop_last().subrange(0, k) == items.subrange(0, k));
        lemma_ser_items_err(items.drop_last(), k, depth, refs);
    } else {
        assert(items.subrange(0, k) == items);
    }
}

/// An error in the first `k` pairs is the error of the whole map.
pub proof fn lemma_ser_pairs_err(pairs: Seq<(Lua, Lua)>, k: int, depth: int, refs: Seq<Seq<u8>>)
    requires
        0 <= k <= pairs.len(),
        ser_pairs(pairs.subrange(0, k), depth, refs) is Err,
    ensures
        ser_pairs(pairs, depth, refs) == ser_pairs(pairs.subrange(0, k), depth, refs),
    decreases pairs.len(),
{
    if k < pairs.len() {
        assert(pairs.drop_last().subrange(0, k) == pairs.subrange(0, k));
        lemma_ser_pairs_err(pairs.drop_last(), k, depth, refs);
    } else {
        assert(pairs.subrange(0, k) == pairs);
    }
}

/// Two numbers are equal by value: the same bit pattern, or whole numbers
/// of the same value (so `-0` and `0` are equal).
pub open spec fn num_eq(a: u64, b: u64) -> bool {
    a == b || (integral_value(a) is Some && integral_value(a) == integral_value(b))
}

/// Two map keys are the same key when compared by value.
pub open spec fn key_eq(a: Lua, b: Lua) -> bool {
    match (a, b) {
        (Lua::Number(x), Lua::Number(y)) => num_eq(x, y),
        (Lua::Str(x), Lua::Str(y)) => x == y,
        (Lua::Boolean(x), Lua::Boolean(y)) => x == y,
        _ => false,
    }
}

/// Deep equality by value: numbers by [`num_eq`], arrays item by item, maps
/// pair by pair in order.
pub open spec fn lua_eq(a: Lua, b: Lua) -> bool
    decreases a,
{
    match a {
        Lua::Number(x) => b matches Lua::Number(y) && num_eq(x, y),
        Lua::Array(xs) => b matches Lua::Array(ys) && items_eq(xs, ys),
        Lua::Mapping(xs) => b matches Lua::Mapping(ys) && pairs_eq(xs, ys),
        _ => a == b,
    }
}

/// Item-by-item deep equality.
pub open spec fn items_eq(xs: Seq<Lua>, ys: Seq<Lua>) -> bool
    decreases xs,
{
    &&& xs.len() == ys.len()
    &&& xs.len() > 0 ==> items_eq(xs.drop_last(), ys.drop_last()) && lua_eq(xs.last(), ys.last())
}

/// Pair-by-pair deep equality.
pub open spec fn pairs_eq(xs: Seq<(Lua, Lua)>, ys: Seq<(Lua, Lua)>) -> bool
    decreases xs,
{
    &&& xs.len() == ys.len()
    &&& xs.len() > 0 ==> pairs_eq(xs.drop_last(), ys.drop_last()) && lua_eq(xs.last().0, ys.last().0)
        && lua_eq(xs.last().1, ys.last().1)
}

/// `v` is a value whose binary encoding reads back: no map has a `Null` key
/// or two keys that are the same key by value.
pub open spec fn encodable(v: Lua) -> bool
    decreases v,
{
    match v {
        Lua::Array(items) => items_encodable(items),
        Lua::Mapping(pairs) => pairs_encodable(pairs),
        _ => true,
    }
}

/// Every item is [`encodable`].
pub open spec fn items_encodable(s: Seq<Lua>) -> bool
    decreases s,
{
    s.len() > 0 ==> items_encodable(s.drop_last()) && encodable(s.last())
}

/// Every key and value is [`encodable`], no key is `Null`, and no two keys
/// are the same key by value.
pub open spec fn pairs_encodable(s: Seq<(Lua, Lua)>) -> bool
    decreases s,
{
    s.len() > 0 ==> {
        &&& pairs_encodable(s.drop_last())
        &&& !(s.last().0 is Null)
        &&& encodable(s.last().0)
        &&& encodable(s.last().1)
        &&& forall|j: int| 0 <= j < s.len() - 1 ==> !key_eq(#[trigger] s[j].0, s.last().0)
    }
}

/// The big-endian value of the bytes `s`.
pub open spec fn be_value(s: Seq<u8>) -> nat
    decreases s.len(),
{
    if s.len() == 0 {
        0
    } else {
        256 * be_value(s.drop_last()) + s.last() as nat
    }
}

/// `256^n`.
pub open spec fn pow256(n: nat) -> nat
    decreases n,
{
    if n == 0 {
        1
    } else {
        256 * pow256((n - 1) as nat)
    }
}

/// Big-endian bytes of a number that fits read back as that number.
pub proof fn lemma_be_round_trip(m: nat, n: nat)
    requires
        m < pow256(n),
    ensures
        be_bytes(m, n).len() == n,
        be_value(be_bytes(m, n)) == m,
    decreases n,
{
    if n > 0 {
        assert(m / 256 < pow256((n - 1) as nat)) by (nonlinear_arith)
            requires
                m < 256 * pow256((n - 1) as nat),
        ;
        lemma_be_round_trip(m / 256, (n - 1) as nat);
        assert(be_bytes(m, n).drop_last() == be_bytes(m / 256, (n - 1) as nat));
    }
}

/// The encoding of the first `k` items is a prefix of the encoding of all.
pub proof fn lemma_ser_items_prefix(items: Seq<Lua>, k: int, depth: int, refs: Seq<Seq<u8>>)
    requires
        0 <= k <= items.len(),
        ser_items(items, depth, refs) is Ok,
    ensures
        ser_items(items.subrange(0, k), depth, refs) is Ok,
        ser_items(items.subrange(0, k), depth, refs)->Ok_0.0.len() <= ser_items(
            items,
            depth,
            refs,
        )->Ok_0.0.len(),
        ser_items(items, depth, refs)->Ok_0.0.take(
            ser_items(items.subrange(0, k), depth, refs)->Ok_0.0.len() as int,
        ) == ser_items(items.subrange(0, k), depth, refs)->Ok_0.0,
    decreases items.len(),
{
    if k < items.len() {
        assert(items.drop_last().subrange(0, k) == items.subrange(0, k));
        lemma_ser_items_prefix(items.drop_last(), k, depth, refs);
        let all = ser_items(items, depth, refs)->Ok_0.0;
        let b1 = ser_items(items.drop_last(), depth, refs)->Ok_0.0;
        let bk = ser_items(items.subrange(0, k), depth, refs)->Ok_0.0;
        assert(all.take(b1.len() as int) == b1);
        assert(all.take(bk.len() as int) == b1.take(bk.len() as int));
    } else {
        assert(items.subrange(0, k) == items);
    }
}

/// The encoding of the first `k` pairs is a prefix of the encoding of all.
pub proof fn lemma_ser_pairs_prefix(pairs: Seq<(Lua, Lua)>, k: int, depth: int, refs: Seq<Seq<u8>>)
    requires
        0 <= k <= pairs.len(),
        ser_pairs(pairs, depth, refs) is Ok,
    ensures
        ser_pairs(pairs.subrange(0, k), depth, refs) is Ok,
        ser_pairs(pairs.subrange(0, k), depth, refs)->Ok_0.0.len() <= ser_pairs(
            pairs,
            depth,
            refs,
        )->Ok_0.0.len(),
        ser_pairs(pairs, depth, refs)->Ok_0.0.take(
            ser_pairs(pairs.subrange(0, k), depth, refs)->Ok_0.0.len() as int,
        ) == ser_pairs(pairs.subrange(0, k), depth, refs)->Ok_0.0,
    decreases pairs.len(),
{
    if k < pairs.len() {
        assert(pairs.drop_last().subrange(0, k) == pairs.subrange(0, k));
        lemma_ser_pairs_prefix(pairs.drop_last(), k, depth, refs);
        let all = ser_pairs(pairs, depth, refs)->Ok_0.0;
        let b1 = ser_pairs(pairs.drop_last(), depth, refs)->Ok_0.0;
        let bk = ser_pairs(pairs.subrange(0, k), depth, refs)->Ok_0.0;
        assert(all.take(b1.len() as int) == b1);
        assert(all.take(bk.len() as int) == b1.take(bk.len() as int));
    } else {
        assert(pairs.subrange(0, k) == pairs);
    }
}

/// The magnitude of a whole number.
pub open spec fn magnitude(x: int) -> nat {
    if x < 0 {
        (-x) as nat
    } else {
        x as nat
    }
}

/// The shape of an encoding from its first byte, where that byte has its
/// low bit set (a 7-bit integer), or low bits `10` (an embedded element).
pub proof fn lemma_short_forms(v: Lua, depth: int, refs: Seq<Seq<u8>>)
    requires
        ser(v, depth, refs) is Ok,
    ensures
        ({
            let (b, r2) = ser(v, depth, refs)->Ok_0;
            let b0 = b[0];
            &&& b.len() >= 1
            &&& b0 % 2 == 1 ==> (v matches Lua::Number(bits) && small_integer(bits) == Some(
                (b0 / 2) as int,
            ) && b.len() == 1 && r2 == refs)
            &&& b0 % 4 == 2 ==> match v {
                Lua::Str(t) => first_index(refs, t) is None && t.len() < 16 && b0 == embedded(
                    EMBEDDED_STR as int,
                    t.len() as int,
                ) && b == seq![b0] + t && r2 == (if t.len() > 2 {
                    refs.push(t)
                } else {
                    refs
                }),
                Lua::Array(items) => items.len() < 16 && b0 == embedded(
                    EMBEDDED_ARRAY as int,
                    items.len() as int,
                ) && ser_items(items, depth, refs) == Ok::<(Seq<u8>, Seq<Seq<u8>>), CodecError>(
                    (b.skip(1), r2),
                ),
                Lua::Mapping(pairs) => pairs.len() < 16 && b0 == embedded(
                    EMBEDDED_MAP as int,
                    pairs.len() as int,
                ) && ser_pairs(pairs, depth, refs) == Ok::<(Seq<u8>, Seq<Seq<u8>>), CodecError>(
                    (b.skip(1), r2),
                ),
                _ => false,
            }
            &&& b0 % 8 == 4 ==> (v matches Lua::Number(bits) && small_integer(bits) matches Some(x)
                && -4096 < x < 4096 && !(0 <= x < 128) && b == seq![
                ((16 * magnitude(x) + (if x < 0 { 8int } else { 0int }) + 4) % 256) as u8,
                ((16 * magnitude(x) + (if x < 0 { 8int } else { 0int }) + 4) / 256) as u8,
            ] && r2 == refs)
        }),
{
    let (b, r2) = ser(v, depth, refs)->Ok_0;
    match v {
        Lua::Number(bits) => {
            match small_integer(bits) {
                Some(x) => {
                    assert(b == int_bytes(x));
                    if 0 <= x < 128 {
                        assert(b[0] == (2 * x + 1) as u8);
                        assert(b[0] / 2 == x);
                    } else if -4096 < x < 4096 {
                        let m = magnitude(x);
                        let w = 16 * m + (if x < 0 { 8int } else { 0int }) + 4;
                        assert(w % 16 == 4 || w % 16 == 12);
                        assert((w % 256) % 8 == 4) by (nonlinear_arith)
                            requires
                                w % 16 == 4 || w % 16 == 12,
                                w >= 0,
                        ;
                        assert(b[0] == (w % 256) as u8);
                    } else {
                        let n = spec_required_bytes(magnitude(x));
                        let t: int = if n == 2 {
                            TAG_INT16_POS as int
                        } else if n == 3 {
                            TAG_INT24_POS as int
                        } else if n == 4 {
                            TAG_INT32_POS as int
                        } else {
                            TAG_INT64_POS as int
                        } + (if x < 0 { 1int } else { 0int });
                        assert(b[0] == wide(t));
                        assert(wide(t) % 8 == 0);
                    }
                },
                None => {
                    assert(b[0] == wide(TAG_FLOAT as int));
                },
            }
        },
        Lua::Str(t) => {
            if first_index(refs, t) is None && t.len() < 16 {
                assert(b == seq![b0_of(b)] + t);
            }
        },
        Lua::Array(items) => {
            if items.len() < 16 {
                assert(b.skip(1) == ser_items(items, depth, refs)->Ok_0.0);
            }
        },
        Lua::Mapping(pairs) => {
            if pairs.len() < 16 {
                assert(b.skip(1) == ser_pairs(pairs, depth, refs)->Ok_0.0);
            }
        },
        _ => {},
    }
}

/// The first byte of an encoding.
pub open spec fn b0_of(b: Seq<u8>) -> u8 {
    b[0]
}

/// The width of a wide integer tag's payload.
pub open spec fn int_width(t: int) -> nat {
    if t <= 2 {
        2
    } else if t <= 4 {
        3
    } else if t <= 6 {
        4
    } else {
        7
    }
}

pub proof fn lemma_pow256_values()
    ensures
        pow256(1) == 0x100,
        pow256(2) == 0x1_0000,
        pow256(3) == 0x100_0000,
        pow256(4) == 0x1_0000_0000,
        pow256(7) == 0x100_0000_0000_0000,
        pow256(8) == 0x1_0000_0000_0000_0000,
{
    reveal_with_fuel(pow256, 9);
}

/// The shape of an encoding whose first byte is a wide tag.
pub proof fn lemma_wide_forms(v: Lua, depth: int, refs: Seq<Seq<u8>>)
    requires
        ser(v, depth, refs) is Ok,
        ser(v, depth, refs)->Ok_0.0[0] % 8 == 0,
    ensures
        ({
            let (b, r2) = ser(v, depth, refs)->Ok_0;
            let t = (b[0] / 8) as int;
            &&& b.len() >= 1
            &&& t == TAG_NULL ==> v == Lua::Null && b.len() == 1 && r2 == refs
            &&& t == TAG_TRUE ==> v == Lua::Boolean(true) && b.len() == 1 && r2 == refs
            &&& t == TAG_FALSE ==> v == Lua::Boolean(false) && b.len() == 1 && r2 == refs
            &&& TAG_INT16_POS <= t <= TAG_INT64_NEG ==> (v matches Lua::Number(bits) && small_integer(
                bits,
            ) matches Some(x) && (x < 0) == (t % 2 == 0) && magnitude(x) < pow256(int_width(t))
                && b == seq![b[0]] + be_bytes(magnitude(x), int_width(t)) && r2 == refs)
            &&& t == TAG_FLOAT ==> (v matches Lua::Number(bits) && small_integer(bits) is None && b
                == seq![b[0]] + be_bytes(bits as nat, 8) && r2 == refs)
            &&& TAG_STR8 <= t <= TAG_STR24 ==> (v matches Lua::Str(s) && first_index(refs, s) is None
                && s.len() < pow256((t - 13) as nat) && b == seq![b[0]] + be_bytes(
                s.len(),
                (t - 13) as nat,
            ) + s && r2 == refs.push(s))
            &&& TAG_STRREF8 <= t <= TAG_STRREF24 ==> (v matches Lua::Str(s) && first_index(refs, s)
                matches Some(p) && p + 1 < pow256((t - 25) as nat) && refs[p as int] == s && b
                == seq![b[0]] + be_bytes(p + 1, (t - 25) as nat) && r2 == refs)
            &&& TAG_MAP8 <= t <= TAG_MAP24 ==> (v matches Lua::Mapping(pairs) && pairs.len()
                < pow256((t - 16) as nat) && ser_pairs(pairs, depth, refs) is Ok && b == seq![b[0]]
                + be_bytes(pairs.len(), (t - 16) as nat) + ser_pairs(pairs, depth, refs)->Ok_0.0
                && r2 == ser_pairs(pairs, depth, refs)->Ok_0.1)
            &&& TAG_ARRAY8 <= t <= TAG_ARRAY24 ==> (v matches Lua::Array(items) && items.len()
                < pow256((t - 19) as nat) && ser_items(items, depth, refs) is Ok && b == seq![b[0]]
                + be_bytes(items.len(), (t - 19) as nat) + ser_items(items, depth, refs)->Ok_0.0
                && r2 == ser_items(items, depth, refs)->Ok_0.1)
            &&& !(t == TAG_FLOATSTR_POS || t == TAG_FLOATSTR_NEG || (TAG_MIXED8 <= t <= TAG_MIXED24)
                || (TAG_MAPREF8 <= t <= TAG_MAPREF24))
        }),
{
    lemma_pow256_values();
    lemma_short_forms(v, depth, refs);
    let (b, r2) = ser(v, depth, refs)->Ok_0;
    match v {
        Lua::Number(bits) => {
            match small_integer(bits) {
                Some(x) => {
                    assert(b == int_bytes(x));
                    if 0 <= x < 128 {
                    } else if -4096 < x < 4096 {
                    } else {
                        let m = magnitude(x);
                        let n = spec_required_bytes(m);
                        let t: int = if n == 2 {
                            TAG_INT16_POS as int
                        } else if n == 3 {
                            TAG_INT24_POS as int
                        } else if n == 4 {
                            TAG_INT32_POS as int
                        } else {
                            TAG_INT64_POS as int
                        } + (if x < 0 { 1int } else { 0int });
                        assert(b[0] == wide(t));
                        assert(b[0] / 8 == t);
                        assert(int_width(t) == n);
                        assert(m <= MAX_PACKED_INT);
                        assert(b == seq![b[0]] + be_bytes(m, n));
                    }
                },
                None => {
                    assert(b == seq![b[0]] + be_bytes(bits as nat, 8));
                },
            }
        },
        Lua::Str(t) => {
            match first_index(refs, t) {
                Some(p) => {
                    lemma_first_index_found(refs, t);
                    assert(b == seq![b[0]] + be_bytes(p + 1, spec_required_bytes(p + 1)));
                },
                None => {
                    if t.len() >= 16 {
                        let n = spec_required_bytes(t.len());
                        assert(b == seq![b[0]] + be_bytes(t.len(), n) + t);
                    }
                },
            }
        },
        Lua::Array(items) => {
            if items.len() >= 16 {
                let n = spec_required_bytes(items.len());
                assert(b == seq![b[0]] + be_bytes(items.len(), n) + ser_items(items, depth, refs)->Ok_0.0);
            }
        },
        Lua::Mapping(pairs) => {
            if pairs.len() >= 16 {
                let n = spec_required_bytes(pairs.len());
                assert(b == seq![b[0]] + be_bytes(pairs.len(), n) + ser_pairs(pairs, depth, refs)->Ok_0.0);
            }
        },
        _ => {},
    }
}

/// The position `first_index` finds holds the string.
pub proof fn lemma_first_index_found(refs: Seq<Seq<u8>>, s: Seq<u8>)
    ensures
        first_index(refs, s) matches Some(p) ==> p < refs.len() && refs[p as int] == s,
    decreases refs.len(),
{
    if refs.len() > 0 {
        lemma_first_index_found(refs.drop_last(), s);
    }
}

/// Every item of an encodable array is encodable.
pub proof fn lemma_items_encodable_index(s: Seq<Lua>)
    requires
        items_encodable(s),
    ensures
        forall|i: int| 0 <= i < s.len() ==> encodable(#[trigger] s[i]),
    decreases s.len(),
{
    if s.len() > 0 {
        lemma_items_encodable_index(s.drop_last());
        assert forall|i: int| 0 <= i < s.len() implies encodable(#[trigger] s[i]) by {
            if i < s.len() - 1 {
                assert(s[i] == s.drop_last()[i]);
            }
        }
    }
}

/// Every pair of an encodable map is encodable, its key is not `Null`, and
/// no earlier key is the same key.
pub proof fn lemma_pairs_encodable_index(s: Seq<(Lua, Lua)>)
    requires
        pairs_encodable(s),
    ensures
        forall|i: int|
            0 <= i < s.len() ==> {
                &&& !((#[trigger] s[i]).0 is Null)
                &&& encodable(s[i].0)
                &&& encodable(s[i].1)
                &&& forall|j: int| 0 <= j < i ==> !key_eq(#[trigger] s[j].0, s[i].0)
            },
    decreases s.len(),
{
    if s.len() > 0 {
        lemma_pairs_encodable_index(s.drop_last());
        assert forall|i: int|
            0 <= i < s.len() implies {
                &&& !((#[trigger] s[i]).0 is Null)
                &&& encodable(s[i].0)
                &&& encodable(s[i].1)
                &&& forall|j: int| 0 <= j < i ==> !key_eq(#[trigger] s[j].0, s[i].0)
            } by {
            if i < s.len() - 1 {
                assert(s[i] == s.drop_last()[i]);
                assert forall|j: int| 0 <= j < i implies !key_eq(#[trigger] s[j].0, s[i].0) by {
                    assert(s[j] == s.drop_last()[j]);
                }
            } else {
                assert forall|j: int| 0 <= j < i implies !key_eq(#[trigger] s[j].0, s[i].0) by {
                }
            }
        }
    }
}

/// Pairwise deep equality, pair by pair.
pub proof fn lemma_pairs_eq_index(xs: Seq<(Lua, Lua)>, ys: Seq<(Lua, Lua)>)
    requires
        pairs_eq(xs, ys),
    ensures
        xs.len() == ys.len(),
        forall|j: int| 0 <= j < xs.len() ==> lua_eq((#[trigger] xs[j]).0, ys[j].0),
    decreases xs.len(),
{
    if xs.len() > 0 {
        lemma_pairs_eq_index(xs.drop_last(), ys.drop_last());
        assert forall|j: int| 0 <= j < xs.len() implies lua_eq((#[trigger] xs[j]).0, ys[j].0) by {
            if j < xs.len() - 1 {
                assert(xs[j] == xs.drop_last()[j]);
                assert(ys[j] == ys.drop_last()[j]);
            }
        }
    }
}

/// Keys that read back as the same key were the same key by value.
pub proof fn lemma_key_eq_transfer(a: Lua, x: Lua, b: Lua, y: Lua)
    requires
        lua_eq(a, x),
        lua_eq(b, y),
        same_key(x, y),
    ensures
        key_eq(a, b),
{
    match (a, b) {
        (Lua::Number(p), Lua::Number(q)) => {
            let xb = x->Number_0;
            let yb = y->Number_0;
            assert(num_eq(p, xb));
            assert(num_eq(q, yb));
            if xb != yb {
                assert(xb % SIGN_BIT == 0 && yb % SIGN_BIT == 0);
                assert(exponent_field(xb) == 0 && fraction_field(xb) == 0);
                assert(exponent_field(yb) == 0 && fraction_field(yb) == 0);
                assert(integral_value(xb) == Some(0int));
                assert(integral_value(yb) == Some(0int));
            }
        },
        _ => {},
    }
}

/// Deep equality by value is transitive.
pub proof fn lemma_lua_eq_trans(a: Lua, b: Lua, c: Lua)
    requires
        lua_eq(a, b),
        lua_eq(b, c),
    ensures
        lua_eq(a, c),
    decreases a,
{
    match a {
        Lua::Array(xs) => {
            lemma_items_eq_trans(xs, b->Array_0, c->Array_0);
        },
        Lua::Mapping(xs) => {
            lemma_pairs_eq_trans(xs, b->Mapping_0, c->Mapping_0);
        },
        _ => {},
    }
}

proof fn lemma_items_eq_trans(xs: Seq<Lua>, ys: Seq<Lua>, zs: Seq<Lua>)
    requires
        items_eq(xs, ys),
        items_eq(ys, zs),
    ensures
        items_eq(xs, zs),
    decreases xs,
{
    if xs.len() > 0 {
        lemma_items_eq_trans(xs.drop_last(), ys.drop_last(), zs.drop_last());
        lemma_lua_eq_trans(xs.last(), ys.last(), zs.last());
    }
}

proof fn lemma_pairs_eq_trans(xs: Seq<(Lua, Lua)>, ys: Seq<(Lua, Lua)>, zs: Seq<(Lua, Lua)>)
    requires
        pairs_eq(xs, ys),
        pairs_eq(ys, zs),
    ensures
        pairs_eq(xs, zs),
    decreases xs,
{
    if xs.len() > 0 {
        lemma_pairs_eq_trans(xs.drop_last(), ys.drop_last(), zs.drop_last());
        lemma_lua_eq_trans(xs.last().0, ys.last().0, zs.last().0);
        lemma_lua_eq_trans(xs.last().1, ys.last().1, zs.last().1);
    }
}

proof fn lemma_assoc(a: Seq<u8>, b: Seq<u8>, c: Seq<u8>)
    ensures
        (a + b) + c == a + (b + c),
{
    assert((a + b) + c =~= a + (b + c));
}

proof fn lemma_skip_concat(a: Seq<u8>, t: Seq<u8>, k: int)
    requires
        0 <= k <= a.len(),
    ensures
        (a + t).skip(k) == a.skip(k) + t,
{
    assert((a + t).skip(k) =~= a.skip(k) + t);
}

proof fn lemma_cancel_prefix(a: Seq<u8>, t1: Seq<u8>, b: Seq<u8>, t2: Seq<u8>)
    requires
        a + t1 == b + t2,
        a.len() == b.len(),
    ensures
        a == b,
        t1 == t2,
{
    assert(a == (a + t1).take(a.len() as int));
    assert(b == (b + t2).take(b.len() as int));
    assert(t1 == (a + t1).skip(a.len() as int));
    assert(t2 == (b + t2).skip(b.len() as int));
}

/// Two encodable values whose encodings, each followed by some bytes, are
/// the same bytes, have the same encoding and are equal by value.
#[verifier::spinoff_prover]
#[verifier::rlimit(100)]
pub proof fn lemma_ser_injective(
    v1: Lua,
    v2: Lua,
    depth: int,
    refs: Seq<Seq<u8>>,
    t1: Seq<u8>,
    t2: Seq<u8>,
)
    requires
        encodable(v1),
        encodable(v2),
        ser(v1, depth, refs) is Ok,
        ser(v2, depth, refs) is Ok,
        ser(v1, depth, refs)->Ok_0.0 + t1 == ser(v2, depth, refs)->Ok_0.0 + t2,
    ensures
        ser(v1, depth, refs) == ser(v2, depth, refs),
        lua_eq(v1, v2),
    decreases v1, 2nat,
{
    let b1 = ser(v1, depth, refs)->Ok_0.0;
    let b2 = ser(v2, depth, refs)->Ok_0.0;
    lemma_short_forms(v1, depth, refs);
    lemma_short_forms(v2, depth, refs);
    assert(b1[0] == (b1 + t1)[0]);
    assert(b2[0] == (b2 + t2)[0]);
    if b1[0] % 8 == 0 {
        lemma_wide_injective(v1, v2, depth, refs, t1, t2);
    } else if b1[0] % 4 == 2 {
        lemma_embedded_injective(v1, v2, depth, refs, t1, t2);
    } else {
        lemma_small_int_injective(v1, v2, depth, refs, t1, t2);
    }
}

/// The 7-bit and 12-bit integer cases of [`lemma_ser_injective`].
#[verifier::spinoff_prover]
proof fn lemma_small_int_injective(
    v1: Lua,
    v2: Lua,
    depth: int,
    refs: Seq<Seq<u8>>,
    t1: Seq<u8>,
    t2: Seq<u8>,
)
    requires
        encodable(v1),
        encodable(v2),
        ser(v1, depth, refs) is Ok,
        ser(v2, depth, refs) is Ok,
        ser(v1, depth, refs)->Ok_0.0 + t1 == ser(v2, depth, refs)->Ok_0.0 + t2,
        ser(v1, depth, refs)->Ok_0.0[0] == ser(v2, depth, refs)->Ok_0.0[0],
        ser(v1, depth, refs)->Ok_0.0[0] % 2 == 1 || ser(v1, depth, refs)->Ok_0.0[0] % 8 == 4,
    ensures
        ser(v1, depth, refs) == ser(v2, depth, refs),
        lua_eq(v1, v2),
{
    let b1 = ser(v1, depth, refs)->Ok_0.0;
    let b2 = ser(v2, depth, refs)->Ok_0.0;
    lemma_short_forms(v1, depth, refs);
    lemma_short_forms(v2, depth, refs);
    if b1[0] % 2 == 1 {
        lemma_cancel_prefix(b1, t1, b2, t2);
    } else {
        assert(b1[1] == (b1 + t1)[1]);
        assert(b2[1] == (b2 + t2)[1]);
        lemma_cancel_prefix(b1, t1, b2, t2);
        let x1 = small_integer(v1->Number_0)->Some_0;
        let x2 = small_integer(v2->Number_0)->Some_0;
        let w1 = 16 * magnitude(x1) + (if x1 < 0 { 8int } else { 0int }) + 4;
        let w2 = 16 * magnitude(x2) + (if x2 < 0 { 8int } else { 0int }) + 4;
        assert(w1 == (w1 / 256) * 256 + w1 % 256);
        assert(w2 == (w2 / 256) * 256 + w2 % 256);
        assert(w1 == w2);
        assert(x1 == x2);
    }
}

/// The embedded string and table cases of [`lemma_ser_injective`].
#[verifier::spinoff_prover]
proof fn lemma_embedded_injective(
    v1: Lua,
    v2: Lua,
    depth: int,
    refs: Seq<Seq<u8>>,
    t1: Seq<u8>,
    t2: Seq<u8>,
)
    requires
        encodable(v1),
        encodable(v2),
        ser(v1, depth, refs) is Ok,
        ser(v2, depth, refs) is Ok,
        ser(v1, depth, refs)->Ok_0.0 + t1 == ser(v2, depth, refs)->Ok_0.0 + t2,
        ser(v1, depth, refs)->Ok_0.0[0] == ser(v2, depth, refs)->Ok_0.0[0],
        ser(v1, depth, refs)->Ok_0.0[0] % 4 == 2,
    ensures
        ser(v1, depth, refs) == ser(v2, depth, refs),
        lua_eq(v1, v2),
    decreases v1, 1nat,
{
    let b1 = ser(v1, depth, refs)->Ok_0.0;
    let b2 = ser(v2, depth, refs)->Ok_0.0;
    let b0 = b1[0];
    lemma_short_forms(v1, depth, refs);
    lemma_short_forms(v2, depth, refs);
    match v1 {
        Lua::Str(s1) => {
            assert(b0 as int == s1.len() * 16 + 2);
            assert((b0 % 16) / 4 == 0);
            assert(v2 is Str);
            let s2 = v2->Str_0;
            assert(b0 as int == s2.len() * 16 + 2);
            assert(s1.len() == s2.len());
            lemma_cancel_prefix(b1, t1, b2, t2);
            assert(s1 == b1.skip(1));
            assert(s2 == b2.skip(1));
        },
        Lua::Array(xs) => {
            let ys = v2->Array_0;
            assert(b1 == seq![b0] + b1.skip(1));
            assert(b2 == seq![b0] + b2.skip(1));
            lemma_skip_concat(b1, t1, 1);
            lemma_skip_concat(b2, t2, 1);
            assert((b1 + t1).skip(1) == (b2 + t2).skip(1));
            lemma_items_injective(xs, ys, depth, refs, t1, t2);
        },
        Lua::Mapping(xs) => {
            let ys = v2->Mapping_0;
            assert(b1 == seq![b0] + b1.skip(1));
            assert(b2 == seq![b0] + b2.skip(1));
            lemma_skip_concat(b1, t1, 1);
            lemma_skip_concat(b2, t2, 1);
            assert((b1 + t1).skip(1) == (b2 + t2).skip(1));
            lemma_pairs_injective(xs, ys, depth, refs, t1, t2);
        },
        _ => {},
    }
}

/// The wide-tag case of [`lemma_ser_injective`].
#[verifier::spinoff_prover]
#[verifier::rlimit(100)]
proof fn lemma_wide_injective(
    v1: Lua,
    v2: Lua,
    depth: int,
    refs: Seq<Seq<u8>>,
    t1: Seq<u8>,
    t2: Seq<u8>,
)
    requires
        encodable(v1),
        encodable(v2),
        ser(v1, depth, refs) is Ok,
        ser(v2, depth, refs) is Ok,
        ser(v1, depth, refs)->Ok_0.0 + t1 == ser(v2, depth, refs)->Ok_0.0 + t2,
        ser(v1, depth, refs)->Ok_0.0[0] % 8 == 0,
        ser(v1, depth, refs)->Ok_0.0[0] == ser(v2, depth, refs)->Ok_0.0[0],
    ensures
        ser(v1, depth, refs) == ser(v2, depth, refs),
        lua_eq(v1, v2),
    decreases v1, 1nat,
{
    let (b1, r1) = ser(v1, depth, refs)->Ok_0;
    let (b2, r2) = ser(v2, depth, refs)->Ok_0;
    let b0 = b1[0];
    lemma_pow256_values();
    lemma_wide_forms(v1, depth, refs);
    lemma_wide_forms(v2, depth, refs);
    let t = (b0 / 8) as int;
    if TAG_INT16_POS <= t <= TAG_INT64_NEG {
        let x1 = small_integer(v1->Number_0)->Some_0;
        let x2 = small_integer(v2->Number_0)->Some_0;
        let n = int_width(t);
        lemma_be_round_trip(magnitude(x1), n);
        lemma_be_round_trip(magnitude(x2), n);
        lemma_cancel_prefix(b1, t1, b2, t2);
        assert(b1.skip(1) == be_bytes(magnitude(x1), n));
        assert(b2.skip(1) == be_bytes(magnitude(x2), n));
        assert(magnitude(x1) == magnitude(x2));
        assert(x1 == x2);
        assert(integral_value(v1->Number_0) == Some(x1));
        assert(integral_value(v2->Number_0) == Some(x2));
    } else if t == TAG_FLOAT {
        lemma_be_round_trip(v1->Number_0 as nat, 8);
        lemma_be_round_trip(v2->Number_0 as nat, 8);
        lemma_cancel_prefix(b1, t1, b2, t2);
        assert(b1.skip(1) == be_bytes(v1->Number_0 as nat, 8));
        assert(b2.skip(1) == be_bytes(v2->Number_0 as nat, 8));
        assert(v1->Number_0 == v2->Number_0);
    } else if TAG_STR8 <= t <= TAG_STR24 {
        let s1 = v1->Str_0;
        let s2 = v2->Str_0;
        let n = (t - 13) as nat;
        lemma_be_round_trip(s1.len(), n);
        lemma_be_round_trip(s2.len(), n);
        let h1 = seq![b0] + be_bytes(s1.len(), n);
        let h2 = seq![b0] + be_bytes(s2.len(), n);
        assert(b1 == h1 + s1);
        assert(b2 == h2 + s2);
        lemma_assoc(h1, s1, t1);
        lemma_assoc(h2, s2, t2);
        lemma_cancel_prefix(h1, s1 + t1, h2, s2 + t2);
        assert(be_bytes(s1.len(), n) == h1.skip(1));
        assert(be_bytes(s2.len(), n) == h2.skip(1));
        lemma_cancel_prefix(s1, t1, s2, t2);
    } else if TAG_STRREF8 <= t <= TAG_STRREF24 {
        let n = (t - 25) as nat;
        let i1 = first_index(refs, v1->Str_0)->Some_0;
        let i2 = first_index(refs, v2->Str_0)->Some_0;
        lemma_be_round_trip(i1 + 1, n);
        lemma_be_round_trip(i2 + 1, n);
        lemma_cancel_prefix(b1, t1, b2, t2);
        assert(be_bytes(i1 + 1, n) == b1.skip(1));
        assert(be_bytes(i2 + 1, n) == b2.skip(1));
        lemma_first_index_found(refs, v1->Str_0);
        lemma_first_index_found(refs, v2->Str_0);
        assert(i1 == i2);
        assert(v1->Str_0 == v2->Str_0);
    } else if TAG_MAP8 <= t <= TAG_MAP24 {
        let xs = v1->Mapping_0;
        let ys = v2->Mapping_0;
        let n = (t - 16) as nat;
        lemma_be_round_trip(xs.len(), n);
        lemma_be_round_trip(ys.len(), n);
        let h1 = seq![b0] + be_bytes(xs.len(), n);
        let h2 = seq![b0] + be_bytes(ys.len(), n);
        let c1 = ser_pairs(xs, depth, refs)->Ok_0.0;
        let c2 = ser_pairs(ys, depth, refs)->Ok_0.0;
        assert(b1 == h1 + c1);
        assert(b2 == h2 + c2);
        lemma_assoc(h1, c1, t1);
        lemma_assoc(h2, c2, t2);
        lemma_cancel_prefix(h1, c1 + t1, h2, c2 + t2);
        assert(be_bytes(xs.len(), n) == h1.skip(1));
        assert(be_bytes(ys.len(), n) == h2.skip(1));
        lemma_pairs_injective(xs, ys, depth, refs, t1, t2);
    } else if TAG_ARRAY8 <= t <= TAG_ARRAY24 {
        let xs = v1->Array_0;
        let ys = v2->Array_0;
        let n = (t - 19) as nat;
        lemma_be_round_trip(xs.len(), n);
        lemma_be_round_trip(ys.len(), n);
        let h1 = seq![b0] + be_bytes(xs.len(), n);
        let h2 = seq![b0] + be_bytes(ys.len(), n);
        let c1 = ser_items(xs, depth, refs)->Ok_0.0;
        let c2 = ser_items(ys, depth, refs)->Ok_0.0;
        assert(b1 == h1 + c1);
        assert(b2 == h2 + c2);
        lemma_assoc(h1, c1, t1);
        lemma_assoc(h2, c2, t2);
        lemma_cancel_prefix(h1, c1 + t1, h2, c2 + t2);
        assert(be_bytes(xs.len(), n) == h1.skip(1));
        assert(be_bytes(ys.len(), n) == h2.skip(1));
        lemma_items_injective(xs, ys, depth, refs, t1, t2);
    } else {
        lemma_cancel_prefix(b1, t1, b2, t2);
    }
}

/// Items of equal count whose encodings, each followed by some bytes, are
/// the same bytes, have the same encoding and are equal by value.
#[verifier::spinoff_prover]
pub proof fn lemma_items_injective(
    xs: Seq<Lua>,
    ys: Seq<Lua>,
    depth: int,
    refs: Seq<Seq<u8>>,
    t1: Seq<u8>,
    t2: Seq<u8>,
)
    requires
        xs.len() == ys.len(),
        items_encodable(xs),
        items_encodable(ys),
        ser_items(xs, depth, refs) is Ok,
        ser_items(ys, depth, refs) is Ok,
        ser_items(xs, depth, refs)->Ok_0.0 + t1 == ser_items(ys, depth, refs)->Ok_0.0 + t2,
    ensures
        ser_items(xs, depth, refs) == ser_items(ys, depth, refs),
        items_eq(xs, ys),
    decreases xs, 0nat,
{
    if xs.len() > 0 {
        let (b1, _) = ser_items(xs.drop_last(), depth, refs)->Ok_0;
        let (b2, _) = ser_items(ys.drop_last(), depth, refs)->Ok_0;
        let r = ser_items(xs.drop_last(), depth, refs)->Ok_0.1;
        let c1 = ser(xs.last(), depth - 1, r)->Ok_0.0;
        let c2 = ser(ys.last(), depth - 1, ser_items(ys.drop_last(), depth, refs)->Ok_0.1)->Ok_0.0;
        lemma_assoc(b1, c1, t1);
        lemma_assoc(b2, c2, t2);
        lemma_items_injective(xs.drop_last(), ys.drop_last(), depth, refs, c1 + t1, c2 + t2);
        lemma_cancel_prefix(b1, c1 + t1, b2, c2 + t2);
        lemma_ser_injective(xs.last(), ys.last(), depth - 1, r, t1, t2);
    }
}

/// Pairs of equal count whose encodings, each followed by some bytes, are
/// the same bytes, have the same encoding and are equal by value.
#[verifier::spinoff_prover]
pub proof fn lemma_pairs_injective(
    xs: Seq<(Lua, Lua)>,
    ys: Seq<(Lua, Lua)>,
    depth: int,
    refs: Seq<Seq<u8>>,
    t1: Seq<u8>,
    t2: Seq<u8>,
)
    requires
        xs.len() == ys.len(),
        pairs_encodable(xs),
        pairs_encodable(ys),
        ser_pairs(xs, depth, refs) is Ok,
        ser_pairs(ys, depth, refs) is Ok,
        ser_pairs(xs, depth, refs)->Ok_0.0 + t1 == ser_pairs(ys, depth, refs)->Ok_0.0 + t2,
    ensures
        ser_pairs(xs, depth, refs) == ser_pairs(ys, depth, refs),
        pairs_eq(xs, ys),
    decreases xs, 0nat,
{
    if xs.len() > 0 {
        let (b1, r) = ser_pairs(xs.drop_last(), depth, refs)->Ok_0;
        let (b2, r2) = ser_pairs(ys.drop_last(), depth, refs)->Ok_0;
        let (k1, rk1) = ser(xs.last().0, depth - 1, r)->Ok_0;
        let (k2, rk2) = ser(ys.last().0, depth - 1, r2)->Ok_0;
        let v1 = ser(xs.last().1, depth - 1, rk1)->Ok_0.0;
        let v2 = ser(ys.last().1, depth - 1, rk2)->Ok_0.0;
        lemma_assoc(b1 + k1, v1, t1);
        lemma_assoc(b1, k1, v1 + t1);
        lemma_assoc(k1, v1, t1);
        lemma_assoc(b2 + k2, v2, t2);
        lemma_assoc(b2, k2, v2 + t2);
        lemma_assoc(k2, v2, t2);
        assert(b1 + (k1 + v1 + t1) == b2 + (k2 + v2 + t2));
        lemma_pairs_injective(xs.drop_last(), ys.drop_last(), depth, refs, k1 + v1 + t1, k2 + v2 + t2);
        lemma_cancel_prefix(b1, k1 + v1 + t1, b2, k2 + v2 + t2);
        assert(k1 + (v1 + t1) == k2 + (v2 + t2));
        lemma_ser_injective(xs.last().0, ys.last().0, depth - 1, r, v1 + t1, v2 + t2);
        lemma_cancel_prefix(k1, v1 + t1, k2, v2 + t2);
        lemma_ser_injective(xs.last().1, ys.last().1, depth - 1, rk1, t1, t2);
    }
}

} // verus!
