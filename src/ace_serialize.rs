//! The caret-delimited text format ("AceSerializer"), revision 1.
//!
//! A stream is `^1`, the value, then `^^`. Tokens: `^Z` nil, `^B` true,
//! `^b` false, `^S<escaped bytes>` string, `^N<decimal>` number,
//! `^F<mantissa>^f<exponent>` the number `mantissa * 2^exponent`,
//! `^T` ... `^t` table of alternating keys and values.
use vstd::prelude::*;

use crate::error::CodecError;
use crate::lib_serialize::key_eq;
use crate::number::{exponent_field, fraction_field, integral_value, sign_set, EXPONENT_UNIT};
use crate::value::Lua;

pub mod deserialization;
pub mod serialization;

pub use deserialization::Deserializer;
pub use serialization::Serializer;

verus! {

/// How deep containers may nest.
pub const MAX_DEPTH: usize = 128;

/// The decimal digits of `n`, without leading zeros.
pub open spec fn decimal(n: nat) -> Seq<u8>
    decreases n,
{
    if n < 10 {
        seq![(48 + n) as u8]
    } else {
        decimal(n / 10).push((48 + n % 10) as u8)
    }
}

/// `n` in decimal, after a `-` where `neg` is set.
pub open spec fn signed_decimal(neg: bool, n: nat) -> Seq<u8> {
    if neg {
        seq![45u8] + decimal(n)
    } else {
        decimal(n)
    }
}

/// What the byte `b` is written as inside a string token.
pub open spec fn escape_byte(b: u8) -> Seq<u8> {
    if b <= 0x1d || b == 0x1f || b == 0x20 {
        seq![0x7eu8, (b + 64) as u8]
    } else if b == 0x1e {
        seq![0x7eu8, 0x7au8]
    } else if b == 0x5e {
        seq![0x7eu8, 0x7du8]
    } else if b == 0x7e {
        seq![0x7eu8, 0x7cu8]
    } else if b == 0x7f {
        seq![0x7eu8, 0x7bu8]
    } else {
        seq![b]
    }
}

/// The escaped form of the bytes `s`.
pub open spec fn escape(s: Seq<u8>) -> Seq<u8>
    decreases s.len(),
{
    if s.len() == 0 {
        seq![]
    } else {
        escape(s.drop_last()) + escape_byte(s.last())
    }
}

/// `^` followed by the character `c`.
pub open spec fn marker(c: u8) -> Seq<u8> {
    seq![0x5eu8, c]
}

/// The largest magnitude written as a decimal integer: `2^53`.
pub open spec fn max_decimal_int() -> int {
    2 * EXPONENT_UNIT
}

/// `d` can follow `^N` as a decimal that is no plain integer: no `^`, not
/// empty, no infinity token, and some byte that is neither a digit nor a
/// leading `-`.
pub open spec fn decimal_admissible(d: Seq<u8>) -> bool {
    &&& d.len() > 0
    &&& forall|i: int| 0 <= i < d.len() ==> #[trigger] d[i] != 0x5e
    &&& d != seq![49u8, 46u8, 35u8, 73u8, 78u8, 70u8]
    &&& d != seq![45u8, 49u8, 46u8, 35u8, 73u8, 78u8, 70u8]
    &&& d != seq![105u8, 110u8, 102u8]
    &&& d != seq![45u8, 105u8, 110u8, 102u8]
    &&& exists|i: int| 0 <= i < d.len() && !(48 <= #[trigger] d[i] <= 57) && !(i == 0 && d[i] == 45)
}

/// The decimal that the formatter `fmt` gives for the double `b`, where it
/// is admissible and `parse` reads it back as `b`.
pub open spec fn decimal_choice<F: Fn(u64) -> Option<Vec<u8>>, G: Fn(Vec<u8>) -> Option<u64>>(
    fmt: F,
    parse: G,
) -> spec_fn(u64) -> Option<Seq<u8>> {
    |b: u64|
        if exists|t: Vec<u8>, u: Vec<u8>|
            #![trigger fmt.ensures((b,), Some(t)), parse.ensures((u,), Some(b))]
            fmt.ensures((b,), Some(t)) && decimal_admissible(t@) && u@ == t@ && parse.ensures(
                (u,),
                Some(b),
            ) {
            Some(
                choose|d: Seq<u8>|
                    #![trigger decimal_admissible(d)]
                    exists|t: Vec<u8>, u: Vec<u8>|
                        #![trigger fmt.ensures((b,), Some(t)), parse.ensures((u,), Some(b))]
                        fmt.ensures((b,), Some(t)) && t@ == d && decimal_admissible(d) && u@ == d
                            && parse.ensures((u,), Some(b)),
            )
        } else {
            None
        }
}

/// `fmt` and `parse` give one answer per argument, up to the bytes of the
/// texts.
pub open spec fn decimal_functions<F: Fn(u64) -> Option<Vec<u8>>, G: Fn(Vec<u8>) -> Option<u64>>(
    fmt: F,
    parse: G,
) -> bool {
    &&& forall|b: u64| #[trigger] fmt.requires((b,))
    &&& forall|t: Vec<u8>| #[trigger] parse.requires((t,))
    &&& forall|b: u64, r1: Option<Vec<u8>>, r2: Option<Vec<u8>>|
        #[trigger] fmt.ensures((b,), r1) && #[trigger] fmt.ensures((b,), r2) ==> (r1 is None <==> r2
            is None) && (r1 is Some ==> r1->Some_0@ == r2->Some_0@)
    &&& forall|t1: Vec<u8>, t2: Vec<u8>, r1: Option<u64>, r2: Option<u64>|
        t1@ == t2@ && #[trigger] parse.ensures((t1,), r1) && #[trigger] parse.ensures((t2,), r2)
            ==> r1 == r2
}

/// `dec` gives only admissible decimals that `parse` reads back as the
/// double they stand for, whatever text holds them.
pub open spec fn decimals_read_back<G: Fn(Vec<u8>) -> Option<u64>>(
    dec: spec_fn(u64) -> Option<Seq<u8>>,
    parse: G,
) -> bool {
    forall|b: u64|
        #[trigger] dec(b) matches Some(d) ==> decimal_admissible(d) && forall|t: Vec<u8>, r: Option<u64>|
            t@ == d && #[trigger] parse.ensures((t,), r) ==> r == Some(b)
}

/// `bits` is a whole number written as plain decimal digits: finite, below
/// `2^53` in magnitude, and no negative zero.
pub open spec fn integer_token(bits: u64) -> bool {
    &&& exponent_field(bits) != 2047
    &&& integral_value(bits) matches Some(v) && -max_decimal_int() < v < max_decimal_int() && !(v
        == 0 && sign_set(bits))
}

/// The token of the number with bit pattern `bits`.
///
/// Whole numbers below `2^53` in magnitude (but negative zero) are written in
/// decimal digits; infinities as `1.#INF` and `-1.#INF`; every other finite
/// number as the decimal `dec` gives for it, or, where it gives none, exactly
/// as `^F<mantissa>^f<exponent>` from its IEEE-754 fields; NaN is refused.
pub open spec fn number_token(bits: u64, dec: spec_fn(u64) -> Option<Seq<u8>>) -> Result<Seq<u8>, CodecError> {
    let e = exponent_field(bits);
    let frac = fraction_field(bits);
    let neg = sign_set(bits);
    if e == 2047 {
        if frac != 0 {
            Err(CodecError::UnrepresentableNumber)
        } else if neg {
            Ok(marker(0x4e) + seq![45u8, 49u8, 46u8, 35u8, 73u8, 78u8, 70u8])
        } else {
            Ok(marker(0x4e) + seq![49u8, 46u8, 35u8, 73u8, 78u8, 70u8])
        }
    } else {
        match integral_value(bits) {
            Some(v) if -max_decimal_int() < v < max_decimal_int() && !(v == 0 && neg) => Ok(
                marker(0x4e) + signed_decimal(v < 0, (if v < 0 {
                    -v
                } else {
                    v
                }) as nat),
            ),
            _ => if dec(bits) is Some {
                Ok(marker(0x4e) + dec(bits)->Some_0)
            } else {
                let mantissa: nat = if e == 0 {
                    (2 * frac) as nat
                } else {
                    (frac + EXPONENT_UNIT) as nat
                };
                let exponent: int = if e == 0 {
                    -1075
                } else {
                    e - 1075
                };
                Ok(
                    marker(0x46) + signed_decimal(neg, mantissa) + marker(0x66) + signed_decimal(
                        exponent < 0,
                        (if exponent < 0 {
                            -exponent
                        } else {
                            exponent
                        }) as nat,
                    ),
                )
            },
        }
    }
}

/// The text of `v` with `depth` levels of nesting left.
pub open spec fn ace(v: Lua, depth: int, dec: spec_fn(u64) -> Option<Seq<u8>>) -> Result<Seq<u8>, CodecError>
    decreases v,
{
    match v {
        Lua::Null => Ok(marker(0x5a)),
        Lua::Boolean(b) => Ok(
            if b {
                marker(0x42)
            } else {
                marker(0x62)
            },
        ),
        Lua::Str(s) => Ok(marker(0x53) + escape(s)),
        Lua::Number(bits) => number_token(bits, dec),
        Lua::Array(items) => match ace_items(items, depth, dec) {
            Ok(b) => Ok(marker(0x54) + b + marker(0x74)),
            Err(e) => Err(e),
        },
        Lua::Mapping(pairs) => match ace_pairs(pairs, depth, dec) {
            Ok(b) => Ok(marker(0x54) + b + marker(0x74)),
            Err(e) => Err(e),
        },
    }
}

/// The items of an array, each after its 1-based index, one level down.
pub open spec fn ace_items(items: Seq<Lua>, depth: int, dec: spec_fn(u64) -> Option<Seq<u8>>) -> Result<Seq<u8>, CodecError>
    decreases items,
{
    if items.len() == 0 {
        Ok(seq![])
    } else {
        match ace_items(items.drop_last(), depth, dec) {
            Ok(b) => if depth <= 1 {
                Err(CodecError::RecursionLimit)
            } else {
                match ace(items.last(), depth - 1, dec) {
                    Ok(c) => Ok(b + marker(0x4e) + decimal(items.len()) + c),
                    Err(e) => Err(e),
                }
            },
            Err(e) => Err(e),
        }
    }
}

/// The key/value pairs of a map, one level down.
pub open spec fn ace_pairs(pairs: Seq<(Lua, Lua)>, depth: int, dec: spec_fn(u64) -> Option<Seq<u8>>) -> Result<Seq<u8>, CodecError>
    decreases pairs,
{
    if pairs.len() == 0 {
        Ok(seq![])
    } else {
        match ace_pairs(pairs.drop_last(), depth, dec) {
            Ok(b) => if depth <= 1 {
                Err(CodecError::RecursionLimit)
            } else {
                match ace(pairs.last().0, depth - 1, dec) {
                    Ok(c) => match ace(pairs.last().1, depth - 1, dec) {
                        Ok(d) => Ok(b + c + d),
                        Err(e) => Err(e),
                    },
                    Err(e) => Err(e),
                }
            },
            Err(e) => Err(e),
        }
    }
}

/// The text stream of `v`: `^1`, the value, `^^`.
pub open spec fn ace_encoding(v: Lua, dec: spec_fn(u64) -> Option<Seq<u8>>) -> Result<Seq<u8>, CodecError> {
    match ace(v, MAX_DEPTH as int, dec) {
        Ok(b) => Ok(marker(0x31) + b + marker(0x5e)),
        Err(e) => Err(e),
    }
}

/// An error in the first `k` items is the error of the whole array.
pub proof fn lemma_ace_items_err(items: Seq<Lua>, k: int, depth: int, dec: spec_fn(u64) -> Option<Seq<u8>>)
    requires
        0 <= k <= items.len(),
        ace_items(items.subrange(0, k), depth, dec) is Err,
    ensures
        ace_items(items, depth, dec) == ace_items(items.subrange(0, k), depth, dec),
    decreases items.len(),
{
    if k < items.len() {
        assert(items.drop_last().subrange(0, k) == items.subrange(0, k));
        lemma_ace_items_err(items.drop_last(), k, depth, dec);
    } else {
        assert(items.subrange(0, k) == items);
    }
}

/// An error in the first `k` pairs is the error of the whole map.
pub proof fn lemma_ace_pairs_err(pairs: Seq<(Lua, Lua)>, k: int, depth: int, dec: spec_fn(u64) -> Option<Seq<u8>>)
    requires
        0 <= k <= pairs.len(),
        ace_pairs(pairs.subrange(0, k), depth, dec) is Err,
    ensures
        ace_pairs(pairs, depth, dec) == ace_pairs(pairs.subrange(0, k), depth, dec),
    decreases pairs.len(),
{
    if k < pairs.len() {
        assert(pairs.drop_last().subrange(0, k) == pairs.subrange(0, k));
        lemma_ace_pairs_err(pairs.drop_last(), k, depth, dec);
    } else {
        assert(pairs.subrange(0, k) == pairs);
    }
}

/// The escaped form of one byte is one or two bytes, and never ends in `~`;
/// it holds no `^`.
pub proof fn lemma_escape_byte_shape(b: u8)
    ensures
        1 <= escape_byte(b).len() <= 2,
        escape_byte(b).last() != 0x7e,
        escape_byte(b).len() == 1 ==> escape_byte(b) == seq![b] && b != 0x7e,
        escape_byte(b).len() == 2 ==> escape_byte(b)[0] == 0x7e,
        forall|i: int| 0 <= i < escape_byte(b).len() ==> #[trigger] escape_byte(b)[i] != 0x5e,
{
}

/// The second byte of the escape pair of `b`.
pub open spec fn second_of_pair(b: u8) -> int {
    if b <= 0x1d || b == 0x1f || b == 0x20 {
        b + 64
    } else if b == 0x1e {
        0x7a
    } else if b == 0x5e {
        0x7d
    } else if b == 0x7e {
        0x7c
    } else {
        0x7b
    }
}

/// No two bytes have the same escaped form.
pub proof fn lemma_escape_byte_injective(a: u8, b: u8)
    requires
        escape_byte(a) == escape_byte(b),
    ensures
        a == b,
{
    if escape_byte(a).len() == 2 {
        let y = escape_byte(a)[1];
        assert(y == escape_byte(b)[1]);
        assert(y as int == second_of_pair(a));
        assert(y as int == second_of_pair(b));
    } else {
        assert(escape_byte(a) == seq![a]);
        assert(escape_byte(b) == seq![b]);
        assert(escape_byte(a)[0] == escape_byte(b)[0]);
        assert(seq![a][0] == a);
        assert(seq![b][0] == b);
    }
}

/// The escaped form of a string is never empty but for the empty string,
/// never ends in `~`, and holds no `^`: the caret that follows it in a
/// stream always starts the next token.
pub proof fn lemma_escape_shape(s: Seq<u8>)
    ensures
        (escape(s).len() == 0) == (s.len() == 0),
        escape(s).len() > 0 ==> escape(s).last() != 0x7e,
        forall|i: int| 0 <= i < escape(s).len() ==> #[trigger] escape(s)[i] != 0x5e,
        escape(s).len() >= s.len(),
    decreases s.len(),
{
    if s.len() > 0 {
        lemma_escape_shape(s.drop_last());
        lemma_escape_byte_shape(s.last());
        let a = escape(s.drop_last());
        let e = escape_byte(s.last());
        assert forall|i: int| 0 <= i < escape(s).len() implies #[trigger] escape(s)[i] != 0x5e by {
            if i < a.len() {
                assert(escape(s)[i] == a[i]);
            } else {
                assert(escape(s)[i] == e[i - a.len()]);
            }
        }
    }
}

/// Different strings have different escaped forms.
pub proof fn lemma_escape_injective(s: Seq<u8>, t: Seq<u8>)
    requires
        escape(s) == escape(t),
    ensures
        s == t,
    decreases s.len() + t.len(),
{
    lemma_escape_shape(s);
    lemma_escape_shape(t);
    if s.len() > 0 && t.len() > 0 {
        let a = escape(s.drop_last());
        let c = escape(t.drop_last());
        let e = escape_byte(s.last());
        let f = escape_byte(t.last());
        lemma_escape_byte_shape(s.last());
        lemma_escape_byte_shape(t.last());
        lemma_escape_shape(s.drop_last());
        lemma_escape_shape(t.drop_last());
        let n = escape(s).len();
        if e.len() == f.len() {
            assert(a == escape(s).take(n - e.len()));
            assert(c == escape(t).take(n - f.len()));
            assert(e == escape(s).skip(n - e.len()));
            assert(f == escape(t).skip(n - f.len()));
            lemma_escape_byte_injective(s.last(), t.last());
            lemma_escape_injective(s.drop_last(), t.drop_last());
            assert(s == s.drop_last().push(s.last()));
            assert(t == t.drop_last().push(t.last()));
        } else if e.len() == 1 {
            // `t` ends in an escape pair, so `a` ends in `~`.
            assert(escape(s)[n - 2] == escape(t)[n - 2]);
            assert(escape(t)[n - 2] == f[0]);
            assert(a.len() == n - 1);
            if a.len() > 0 {
                assert(escape(s)[n - 2] == a.last());
            }
        } else {
            assert(escape(s)[n - 2] == escape(t)[n - 2]);
            assert(escape(s)[n - 2] == e[0]);
            assert(c.len() == n - 1);
            if c.len() > 0 {
                assert(escape(t)[n - 2] == c.last());
            }
        }
    }
}

/// The escaped form of a prefix is a prefix of the escaped form.
pub proof fn lemma_escape_prefix(s: Seq<u8>, k: int)
    requires
        0 <= k <= s.len(),
    ensures
        escape(s.take(k)).len() <= escape(s).len(),
        escape(s).take(escape(s.take(k)).len() as int) == escape(s.take(k)),
    decreases s.len(),
{
    if k < s.len() {
        lemma_escape_prefix(s.drop_last(), k);
        assert(s.drop_last().take(k) == s.take(k));
        let q = escape(s.take(k));
        let a = escape(s.drop_last());
        assert(escape(s) == a + escape_byte(s.last()));
        assert(escape(s).take(q.len() as int) == a.take(q.len() as int));
    } else {
        assert(s.take(k) == s);
    }
}

/// The keys of `pairs` are the numbers 1, 2, ... in order (true of no pairs).
pub open spec fn dense_keys(pairs: Seq<(Lua, Lua)>) -> bool {
    forall|i: int|
        0 <= i < pairs.len() ==> ((#[trigger] pairs[i]).0 matches Lua::Number(b) && integral_value(b)
            == Some(i + 1))
}

/// The value that the text of `v` reads back as: a table whose keys are
/// 1, 2, ... in order (an array, or such a map, or an empty map) reads as
/// an array of its values, every other map as a map.
pub open spec fn decoded(v: Lua) -> Lua
    decreases v,
{
    match v {
        Lua::Array(items) => Lua::Array(decoded_items(items)),
        Lua::Mapping(pairs) => if dense_keys(pairs) {
            Lua::Array(decoded_values(pairs))
        } else {
            Lua::Mapping(decoded_pairs(pairs))
        },
        _ => v,
    }
}

/// [`decoded`] of each item.
pub open spec fn decoded_items(s: Seq<Lua>) -> Seq<Lua>
    decreases s,
{
    if s.len() == 0 {
        seq![]
    } else {
        decoded_items(s.drop_last()).push(decoded(s.last()))
    }
}

/// [`decoded`] of each value of the pairs.
pub open spec fn decoded_values(s: Seq<(Lua, Lua)>) -> Seq<Lua>
    decreases s,
{
    if s.len() == 0 {
        seq![]
    } else {
        decoded_values(s.drop_last()).push(decoded(s.last().1))
    }
}

/// [`decoded`] of each key and value of the pairs.
pub open spec fn decoded_pairs(s: Seq<(Lua, Lua)>) -> Seq<(Lua, Lua)>
    decreases s,
{
    if s.len() == 0 {
        seq![]
    } else {
        decoded_pairs(s.drop_last()).push((decoded(s.last().0), decoded(s.last().1)))
    }
}

/// `v` is a value whose text reads back: no table has `2^53` entries or
/// more, and no map has a `Null` key, or two keys that read back as the
/// same key by value.
pub open spec fn text_encodable(v: Lua) -> bool
    decreases v,
{
    match v {
        Lua::Array(items) => items.len() < 2 * EXPONENT_UNIT && items_text_encodable(items),
        Lua::Mapping(pairs) => pairs.len() < 2 * EXPONENT_UNIT && pairs_text_encodable(pairs),
        _ => true,
    }
}

/// Every item is [`text_encodable`].
pub open spec fn items_text_encodable(s: Seq<Lua>) -> bool
    decreases s,
{
    s.len() > 0 ==> items_text_encodable(s.drop_last()) && text_encodable(s.last())
}

/// Every key and value is [`text_encodable`], no key is `Null`, and no two
/// keys read back as the same key by value.
pub open spec fn pairs_text_encodable(s: Seq<(Lua, Lua)>) -> bool
    decreases s,
{
    s.len() > 0 ==> {
        &&& pairs_text_encodable(s.drop_last())
        &&& !(s.last().0 is Null)
        &&& text_encodable(s.last().0)
        &&& text_encodable(s.last().1)
        &&& forall|j: int|
            0 <= j < s.len() - 1 ==> !key_eq(decoded(#[trigger] s[j].0), decoded(s.last().0))
    }
}

/// The encoding of the first `k` items is a prefix of the encoding of all.
pub proof fn lemma_ace_items_prefix(items: Seq<Lua>, k: int, depth: int, dec: spec_fn(u64) -> Option<Seq<u8>>)
    requires
        0 <= k <= items.len(),
        ace_items(items, depth, dec) is Ok,
    ensures
        ace_items(items.subrange(0, k), depth, dec) is Ok,
        ace_items(items.subrange(0, k), depth, dec)->Ok_0.len() <= ace_items(items, depth, dec)->Ok_0.len(),
        ace_items(items, depth, dec)->Ok_0.take(ace_items(items.subrange(0, k), depth, dec)->Ok_0.len() as int)
            == ace_items(items.subrange(0, k), depth, dec)->Ok_0,
    decreases items.len(),
{
    if k < items.len() {
        assert(items.drop_last().subrange(0, k) == items.subrange(0, k));
        lemma_ace_items_prefix(items.drop_last(), k, depth, dec);
        let all = ace_items(items, depth, dec)->Ok_0;
        let b1 = ace_items(items.drop_last(), depth, dec)->Ok_0;
        let bk = ace_items(items.subrange(0, k), depth, dec)->Ok_0;
        assert(all.take(b1.len() as int) == b1);
        assert(all.take(bk.len() as int) == b1.take(bk.len() as int));
    } else {
        assert(items.subrange(0, k) == items);
    }
}

/// The encoding of the first `k` pairs is a prefix of the encoding of all.
pub proof fn lemma_ace_pairs_prefix(pairs: Seq<(Lua, Lua)>, k: int, depth: int, dec: spec_fn(u64) -> Option<Seq<u8>>)
    requires
        0 <= k <= pairs.len(),
        ace_pairs(pairs, depth, dec) is Ok,
    ensures
        ace_pairs(pairs.subrange(0, k), depth, dec) is Ok,
        ace_pairs(pairs.subrange(0, k), depth, dec)->Ok_0.len() <= ace_pairs(pairs, depth, dec)->Ok_0.len(),
        ace_pairs(pairs, depth, dec)->Ok_0.take(ace_pairs(pairs.subrange(0, k), depth, dec)->Ok_0.len() as int)
            == ace_pairs(pairs.subrange(0, k), depth, dec)->Ok_0,
    decreases pairs.len(),
{
    if k < pairs.len() {
        assert(pairs.drop_last().subrange(0, k) == pairs.subrange(0, k));
        lemma_ace_pairs_prefix(pairs.drop_last(), k, depth, dec);
        let all = ace_pairs(pairs, depth, dec)->Ok_0;
        let b1 = ace_pairs(pairs.drop_last(), depth, dec)->Ok_0;
        let bk = ace_pairs(pairs.subrange(0, k), depth, dec)->Ok_0;
        assert(all.take(b1.len() as int) == b1);
        assert(all.take(bk.len() as int) == b1.take(bk.len() as int));
    } else {
        assert(pairs.subrange(0, k) == pairs);
    }
}

/// No byte of `t` is `^`.
pub open spec fn caret_free(t: Seq<u8>) -> bool {
    forall|i: int| 0 <= i < t.len() ==> #[trigger] t[i] != 0x5e
}

/// The digits of a signed decimal hold no `^`.
pub proof fn lemma_signed_decimal_caret_free(neg: bool, n: nat)
    ensures
        caret_free(signed_decimal(neg, n)),
    decreases n,
{
    if n >= 10 {
        lemma_signed_decimal_caret_free(false, n / 10);
    }
    let d = decimal(n);
    assert forall|i: int| 0 <= i < signed_decimal(neg, n).len() implies #[trigger] signed_decimal(
        neg,
        n,
    )[i] != 0x5e by {
        if n >= 10 {
            assert(decimal(n) == decimal(n / 10).push((48 + n % 10) as u8));
            if neg {
                if i > 0 && i - 1 < decimal(n / 10).len() {
                    assert(signed_decimal(false, n / 10)[i - 1] != 0x5e);
                }
            } else if i < decimal(n / 10).len() {
                assert(signed_decimal(false, n / 10)[i] != 0x5e);
            }
        }
    }
}

/// The shape of the text of `v` by its marker: `^` and a character among
/// `Z B b S N F T`, never `t` or `^`.
pub proof fn lemma_ace_shape(v: Lua, depth: int, dec: spec_fn(u64) -> Option<Seq<u8>>)
    requires
        ace(v, depth, dec) is Ok,
    ensures
        ({
            let b = ace(v, depth, dec)->Ok_0;
            &&& b.len() >= 2
            &&& b[0] == 0x5e
            &&& b[1] != 0x74 && b[1] != 0x5e
            &&& b[1] == 0x5a ==> v == Lua::Null && b.len() == 2
            &&& b[1] == 0x42 ==> v == Lua::Boolean(true) && b.len() == 2
            &&& b[1] == 0x62 ==> v == Lua::Boolean(false) && b.len() == 2
            &&& b[1] == 0x53 ==> (v matches Lua::Str(s) && b == marker(0x53) + escape(s))
            &&& b[1] == 0x4e || b[1] == 0x46 ==> v is Number
            &&& b[1] == 0x54 ==> (v is Array || v is Mapping)
            &&& b[1] == 0x5a || b[1] == 0x42 || b[1] == 0x62 || b[1] == 0x53 || b[1] == 0x4e
                || b[1] == 0x46 || b[1] == 0x54
        }),
{
    match v {
        Lua::Number(bits) => {
            let e = exponent_field(bits);
            if e != 2047 {
                match integral_value(bits) {
                    Some(x) => {},
                    None => {},
                }
            }
        },
        _ => {},
    }
}

/// What follows the first `k` items in the encoding of an array is empty
/// or starts with `^`.
pub proof fn lemma_ace_items_rest(items: Seq<Lua>, k: int, depth: int, dec: spec_fn(u64) -> Option<Seq<u8>>)
    requires
        0 <= k < items.len(),
        ace_items(items, depth, dec) is Ok,
    ensures
        ace_items(items, depth, dec)->Ok_0.len() > ace_items(items.subrange(0, k), depth, dec)->Ok_0.len() + 1,
        ace_items(items, depth, dec)->Ok_0[ace_items(items.subrange(0, k), depth, dec)->Ok_0.len() as int]
            == 0x5e,
        ace_items(items, depth, dec)->Ok_0[ace_items(items.subrange(0, k), depth, dec)->Ok_0.len() + 1int]
            != 0x74,
    decreases items.len(),
{
    lemma_ace_items_prefix(items, k + 1, depth, dec);
    assert(items.subrange(0, k + 1).drop_last() == items.subrange(0, k));
    let all = ace_items(items, depth, dec)->Ok_0;
    let p = ace_items(items.subrange(0, k + 1), depth, dec)->Ok_0;
    let q = ace_items(items.subrange(0, k), depth, dec)->Ok_0;
    assert(p == q + marker(0x4e) + decimal((k + 1) as nat) + ace(items[k], depth - 1, dec)->Ok_0);
    assert(p[q.len() as int] == 0x5e);
    assert(p[q.len() + 1int] == 0x4e);
    assert(all[q.len() as int] == all.take(p.len() as int)[q.len() as int]);
    assert(all[q.len() + 1int] == all.take(p.len() as int)[q.len() + 1int]);
}

/// What follows the first `k` pairs in the encoding of a map starts with
/// `^`.
pub proof fn lemma_ace_pairs_rest(pairs: Seq<(Lua, Lua)>, k: int, depth: int, dec: spec_fn(u64) -> Option<Seq<u8>>)
    requires
        0 <= k < pairs.len(),
        ace_pairs(pairs, depth, dec) is Ok,
    ensures
        ace_pairs(pairs, depth, dec)->Ok_0.len() > ace_pairs(pairs.subrange(0, k), depth, dec)->Ok_0.len() + 1,
        ace_pairs(pairs, depth, dec)->Ok_0[ace_pairs(pairs.subrange(0, k), depth, dec)->Ok_0.len() as int]
            == 0x5e,
        ace_pairs(pairs, depth, dec)->Ok_0[ace_pairs(pairs.subrange(0, k), depth, dec)->Ok_0.len() + 1int]
            != 0x74,
    decreases pairs.len(),
{
    lemma_ace_pairs_prefix(pairs, k + 1, depth, dec);
    assert(pairs.subrange(0, k + 1).drop_last() == pairs.subrange(0, k));
    assert(pairs.subrange(0, k + 1).last() == pairs[k]);
    let all = ace_pairs(pairs, depth, dec)->Ok_0;
    let p = ace_pairs(pairs.subrange(0, k + 1), depth, dec)->Ok_0;
    let q = ace_pairs(pairs.subrange(0, k), depth, dec)->Ok_0;
    let c = ace(pairs[k].0, depth - 1, dec)->Ok_0;
    lemma_ace_shape(pairs[k].0, depth - 1, dec);
    assert(p == q + c + ace(pairs[k].1, depth - 1, dec)->Ok_0);
    assert(p[q.len() as int] == c[0]);
    assert(p[q.len() + 1int] == c[1]);
    assert(all[q.len() as int] == all.take(p.len() as int)[q.len() as int]);
    assert(all[q.len() + 1int] == all.take(p.len() as int)[q.len() + 1int]);
}

/// Every item of a text-encodable array is text-encodable.
pub proof fn lemma_items_text_index(s: Seq<Lua>)
    requires
        items_text_encodable(s),
    ensures
        forall|i: int| 0 <= i < s.len() ==> text_encodable(#[trigger] s[i]),
    decreases s.len(),
{
    if s.len() > 0 {
        lemma_items_text_index(s.drop_last());
        assert forall|i: int| 0 <= i < s.len() implies text_encodable(#[trigger] s[i]) by {
            if i < s.len() - 1 {
                assert(s[i] == s.drop_last()[i]);
            }
        }
    }
}

/// Every pair of a text-encodable map is text-encodable, its key is not
/// `Null`, and no earlier key reads back as the same key.
pub proof fn lemma_pairs_text_index(s: Seq<(Lua, Lua)>)
    requires
        pairs_text_encodable(s),
    ensures
        forall|i: int|
            0 <= i < s.len() ==> {
                &&& !((#[trigger] s[i]).0 is Null)
                &&& text_encodable(s[i].0)
                &&& text_encodable(s[i].1)
                &&& forall|j: int| 0 <= j < i ==> !key_eq(decoded(#[trigger] s[j].0), decoded(s[i].0))
            },
    decreases s.len(),
{
    if s.len() > 0 {
        lemma_pairs_text_index(s.drop_last());
        assert forall|i: int|
            0 <= i < s.len() implies {
                &&& !((#[trigger] s[i]).0 is Null)
                &&& text_encodable(s[i].0)
                &&& text_encodable(s[i].1)
                &&& forall|j: int| 0 <= j < i ==> !key_eq(decoded(#[trigger] s[j].0), decoded(s[i].0))
            } by {
            if i < s.len() - 1 {
                assert(s[i] == s.drop_last()[i]);
                assert forall|j: int| 0 <= j < i implies !key_eq(
                    decoded(#[trigger] s[j].0),
                    decoded(s[i].0),
                ) by {
                    assert(s[j] == s.drop_last()[j]);
                }
            }
        }
    }
}

/// `decoded` of a prefix, one more element.
pub proof fn lemma_decoded_step(items: Seq<Lua>, pairs: Seq<(Lua, Lua)>, i: int)
    ensures
        0 <= i < items.len() ==> decoded_items(items.subrange(0, i + 1)) == decoded_items(
            items.subrange(0, i),
        ).push(decoded(items[i])),
        0 <= i < pairs.len() ==> decoded_values(pairs.subrange(0, i + 1)) == decoded_values(
            pairs.subrange(0, i),
        ).push(decoded(pairs[i].1)),
        0 <= i < pairs.len() ==> decoded_pairs(pairs.subrange(0, i + 1)) == decoded_pairs(
            pairs.subrange(0, i),
        ).push((decoded(pairs[i].0), decoded(pairs[i].1))),
{
    if 0 <= i < items.len() {
        assert(items.subrange(0, i + 1).drop_last() == items.subrange(0, i));
    }
    if 0 <= i < pairs.len() {
        assert(pairs.subrange(0, i + 1).drop_last() == pairs.subrange(0, i));
    }
}

/// The bytes between `^T` and `^t` of the text of a table.
pub open spec fn table_body(v: Lua, depth: int, dec: spec_fn(u64) -> Option<Seq<u8>>) -> Seq<u8> {
    match v {
        Lua::Array(items) => ace_items(items, depth, dec)->Ok_0,
        Lua::Mapping(pairs) => ace_pairs(pairs, depth, dec)->Ok_0,
        _ => seq![],
    }
}

/// The bytes of the first `i` entries of the text of a table.
pub open spec fn table_prefix(v: Lua, i: int, depth: int, dec: spec_fn(u64) -> Option<Seq<u8>>) -> Result<Seq<u8>, CodecError> {
    match v {
        Lua::Array(items) => ace_items(items.subrange(0, i), depth, dec),
        Lua::Mapping(pairs) => ace_pairs(pairs.subrange(0, i), depth, dec),
        _ => Ok(seq![]),
    }
}

/// [`decoded_pairs`] pair by pair.
pub proof fn lemma_decoded_pairs_index(s: Seq<(Lua, Lua)>)
    ensures
        decoded_pairs(s).len() == s.len(),
        forall|j: int|
            0 <= j < s.len() ==> #[trigger] decoded_pairs(s)[j] == (decoded(s[j].0), decoded(s[j].1)),
    decreases s.len(),
{
    if s.len() > 0 {
        lemma_decoded_pairs_index(s.drop_last());
        assert forall|j: int| 0 <= j < s.len() implies #[trigger] decoded_pairs(s)[j] == (
            decoded(s[j].0),
            decoded(s[j].1),
        ) by {
            if j < s.len() - 1 {
                assert(s[j] == s.drop_last()[j]);
            }
        }
    }
}

/// Dense keys of one more pair.
pub proof fn lemma_dense_step(pairs: Seq<(Lua, Lua)>, i: int)
    requires
        0 <= i < pairs.len(),
    ensures
        dense_keys(pairs.subrange(0, i + 1)) == (dense_keys(pairs.subrange(0, i)) && (
        pairs[i].0 matches Lua::Number(b) && integral_value(b) == Some(i + 1))),
{
    let p = pairs.subrange(0, i + 1);
    let q = pairs.subrange(0, i);
    assert(p[i] == pairs[i]);
    if dense_keys(p) {
        assert forall|j: int| 0 <= j < q.len() implies ((#[trigger] q[j]).0 matches Lua::Number(b)
            && integral_value(b) == Some(j + 1)) by {
            assert(q[j] == p[j]);
        }
    }
    if dense_keys(q) && (pairs[i].0 matches Lua::Number(b) && integral_value(b) == Some(i + 1)) {
        assert forall|j: int| 0 <= j < p.len() implies ((#[trigger] p[j]).0 matches Lua::Number(b)
            && integral_value(b) == Some(j + 1)) by {
            if j < i {
                assert(q[j] == p[j]);
            }
        }
    }
}

} // verus!
