//! Reads a value tree from the text format.
use vstd::prelude::*;

use super::{
    ace, ace_encoding, decimals_read_back, decimal_admissible, integer_token, ace_items, ace_pairs, caret_free, pairs_text_encodable, decoded, decoded_items, decoded_pairs, decoded_values, dense_keys,
    lemma_ace_items_prefix, lemma_ace_items_rest, lemma_ace_pairs_prefix, lemma_ace_pairs_rest,
    lemma_ace_shape, lemma_decoded_pairs_index, lemma_decoded_step, lemma_dense_step,
    lemma_items_text_index, lemma_pairs_text_index, lemma_signed_decimal_caret_free, marker,
    number_token, table_body, table_prefix, text_encodable, decimal, escape, escape_byte, lemma_escape_byte_shape, lemma_escape_injective,
    lemma_escape_prefix, lemma_escape_shape, second_of_pair, signed_decimal, MAX_DEPTH,
};
use crate::error::CodecError;
use crate::lib_serialize::{
    items_eq, key_eq, lemma_key_eq_transfer, lemma_pairs_eq_index, lua_eq, magnitude, pairs_eq,
};
use crate::number::{
    bits_of_integer, bits_of_parts, bits_of_parts_spec, exponent_field, fraction_field,
    integer_of_bits, integral_magnitude, integral_value, lemma_parts_round_trip, parts_exponent,
    small_integer,
    parts_mantissa, sign_set, EXPONENT_UNIT,
};
use crate::value::{
    key_position, lemma_key_position_some, map_insert, view_pairs, view_seq, Lua, LuaMapKey,
    LuaValue,
};

verus! {

/// The bit pattern of positive infinity.
pub const POSITIVE_INFINITY: u64 = 0x7ff0_0000_0000_0000;

/// The bit pattern of negative infinity.
pub const NEGATIVE_INFINITY: u64 = 0xfff0_0000_0000_0000;

/// `s` is made of decimal digits only.
pub open spec fn all_digits(s: Seq<u8>) -> bool {
    forall|i: int| 0 <= i < s.len() ==> 48 <= #[trigger] s[i] <= 57
}

/// The number that the decimal digits `s` denote.
pub open spec fn digits_value(s: Seq<u8>) -> nat
    decreases s.len(),
{
    if s.len() == 0 {
        0
    } else {
        10 * digits_value(s.drop_last()) + (s.last() - 48) as nat
    }
}

/// The digits of `n` are digits, and denote `n`.
pub proof fn lemma_decimal_digits(n: nat)
    ensures
        decimal(n).len() > 0,
        all_digits(decimal(n)),
        digits_value(decimal(n)) == n,
    decreases n,
{
    if n >= 10 {
        lemma_decimal_digits(n / 10);
        assert(decimal(n).drop_last() == decimal(n / 10));
        assert(decimal(n).last() == (48 + n % 10) as u8);
        assert(10 * (n / 10) + n % 10 == n);
    } else {
        assert(decimal(n).drop_last() == Seq::<u8>::empty());
        assert(digits_value(Seq::<u8>::empty()) == 0);
    }
}

/// Reads an optionally signed decimal integer below `2^63`.
pub fn parse_integer(text: &[u8]) -> (r: Option<(bool, u64)>)
    ensures
        match r {
            Some((neg, n)) => {
                let body = if neg {
                    text@.drop_first()
                } else {
                    text@
                };
                &&& neg == (text@.len() > 0 && text@[0] == 45)
                &&& body.len() > 0
                &&& all_digits(body)
                &&& n == digits_value(body)
            },
            None => true,
        },
        forall|neg: bool, n: nat|
            n < 0x8000_0000_0000_0000 && #[trigger] signed_decimal(neg, n) == text@ ==> r == Some(
                (neg, n as u64),
            ),
{
    let neg = text.len() > 0 && text[0] == 45;
    let start: usize = if neg {
        1
    } else {
        0
    };
    let ghost body = text@.subrange(start as int, text@.len() as int);
    proof {
        if neg {
            assert(text@.drop_first() == body);
        } else {
            assert(text@ == body);
        }
    }
    if start >= text.len() {
        proof {
            lemma_signed_decimal_shape();
        }
        return None;
    }
    let mut n: u64 = 0;
    let mut i: usize = start;
    while i < text.len()
        invariant
            start <= i <= text@.len(),
            body == text@.subrange(start as int, text@.len() as int),
            neg == (text@.len() > 0 && text@[0] == 45),
            neg ==> text@.drop_first() == body,
            !neg ==> text@ == body,
            all_digits(text@.subrange(start as int, i as int)),
            n == digits_value(text@.subrange(start as int, i as int)),
            n < 0x8000_0000_0000_0000,
        decreases text@.len() - i,
    {
        let c = text[i];
        assert(text@.subrange(start as int, i + 1).drop_last() == text@.subrange(start as int, i as int));
        if c < 48 || c > 57 {
            proof {
                lemma_signed_decimal_shape();
                assert(body[i - start] == c);
                assert forall|neg2: bool, n2: nat|
                    n2 < 0x8000_0000_0000_0000 && #[trigger] signed_decimal(neg2, n2)
                        == text@ implies false by {
                    assert(neg2 == neg);
                    assert(all_digits(body));
                    assert(48 <= body[i - start] <= 57);
                }
            }
            return None;
        }
        let d = (c - 48) as u64;
        if n > (0x7fff_ffff_ffff_ffff - d) / 10 {
            proof {
                lemma_signed_decimal_shape();
                assert(text@.subrange(start as int, i as int) == body.subrange(0, i - start));
                assert(body[i - start] == c);
                assert(10 * n + d > 0x7fff_ffff_ffff_ffff) by (nonlinear_arith)
                    requires
                        n > (0x7fff_ffff_ffff_ffff - d) / 10,
                        d <= 9,
                ;
                assert forall|neg2: bool, n2: nat|
                    n2 < 0x8000_0000_0000_0000 && #[trigger] signed_decimal(neg2, n2)
                        == text@ implies false by {
                    assert(neg2 == neg);
                    assert(all_digits(body));
                    assert(digits_value(body) == n2);
                    lemma_prefix_value_bound(body, (i - start) as int);
                }
            }
            return None;
        }
        assert(n * 10 + d <= 0x7fff_ffff_ffff_ffff) by (nonlinear_arith)
            requires
                n <= (0x7fff_ffff_ffff_ffff - d) / 10,
                d <= 9,
        ;
        n = n * 10 + d;
        i = i + 1;
    }
    proof {
        assert(text@.subrange(start as int, i as int) == body);
        if neg {
            assert(body == text@.drop_first());
        } else {
            assert(body == text@);
        }
        lemma_signed_decimal_shape();
    }
    Some((neg, n))
}

proof fn lemma_signed_decimal_shape()
    ensures
        forall|neg: bool, n: nat|
            {
                let s = #[trigger] signed_decimal(neg, n);
                let body = if neg {
                    s.drop_first()
                } else {
                    s
                };
                &&& (s.len() > 0 && s[0] == 45) == neg
                &&& body == decimal(n)
                &&& body.len() > 0
                &&& all_digits(body)
                &&& digits_value(body) == n
            },
{
    assert forall|neg: bool, n: nat|
        {
            let s = #[trigger] signed_decimal(neg, n);
            let body = if neg {
                s.drop_first()
            } else {
                s
            };
            &&& (s.len() > 0 && s[0] == 45) == neg
            &&& body == decimal(n)
            &&& body.len() > 0
            &&& all_digits(body)
            &&& digits_value(body) == n
        } by {
        lemma_decimal_digits(n);
        if neg {
            assert((seq![45u8] + decimal(n)).drop_first() == decimal(n));
        } else {
            assert(decimal(n)[0] != 45);
        }
    }
}

/// A text with a non-digit after its first byte is no signed decimal.
proof fn lemma_not_decimal(t: Seq<u8>, k: int)
    requires
        1 <= k < t.len(),
        !(48 <= t[k] <= 57),
    ensures
        forall|neg: bool, n: nat| #[trigger] signed_decimal(neg, n) != t,
{
    lemma_signed_decimal_shape();
    assert forall|neg: bool, n: nat| #[trigger] signed_decimal(neg, n) != t by {
        if signed_decimal(neg, n) == t {
            if neg {
                assert(t.drop_first()[k - 1] == t[k]);
            } else {
                assert(all_digits(t));
            }
        }
    }
}

/// The value of a prefix of digits is at most the value of the whole.
proof fn lemma_prefix_value_bound(s: Seq<u8>, k: int)
    requires
        0 <= k < s.len(),
        all_digits(s),
    ensures
        10 * digits_value(s.subrange(0, k)) + (s[k] - 48) <= digits_value(s),
    decreases s.len(),
{
    if k + 1 < s.len() {
        assert(s.drop_last().subrange(0, k) == s.subrange(0, k));
        assert(s.drop_last()[k] == s[k]);
        lemma_prefix_value_bound(s.drop_last(), k);
    } else {
        assert(s.drop_last() == s.subrange(0, k));
    }
}

/// The bytes of the escaped text `raw`: `~` and the byte after it stand
/// for one byte, every other byte for itself. Unescaping undoes escaping.
pub fn unescape(raw: &[u8]) -> (r: Result<Vec<u8>, CodecError>)
    ensures
        r matches Err(e) ==> e == CodecError::InvalidToken,
        forall|s: Seq<u8>| #[trigger] escape(s) == raw@ ==> (r matches Ok(out) && out@ == s),
{
    let ghost has = exists|s: Seq<u8>| #[trigger] escape(s) == raw@;
    let ghost s0 = choose|s: Seq<u8>| #[trigger] escape(s) == raw@;
    let mut out: Vec<u8> = Vec::with_capacity(raw.len());
    let mut i: usize = 0;
    let ghost mut k: int = 0;
    proof {
        if has {
            assert(s0.take(0) == Seq::<u8>::empty());
            lemma_escape_shape(s0.take(0));
        }
    }
    while i < raw.len()
        invariant
            i <= raw@.len(),
            has == exists|t: Seq<u8>| #[trigger] escape(t) == raw@,
            has ==> escape(s0) == raw@,
            has ==> 0 <= k <= s0.len() && i == escape(s0.take(k)).len() && out@ == s0.take(k),
        decreases raw@.len() - i,
    {
        let ghost e = escape_byte(s0[k]);
        proof {
            if has {
                if k == s0.len() {
                    assert(s0.take(k) == s0);
                }
                lemma_escape_prefix(s0, k + 1);
                assert(s0.take(k + 1).drop_last() == s0.take(k));
                assert(s0.take(k + 1).last() == s0[k]);
                lemma_escape_byte_shape(s0[k]);
                let q = escape(s0.take(k));
                let p = escape(s0.take(k + 1));
                assert(p == q + e);
                assert(raw@[i as int] == p[i as int]);
                assert(p[i as int] == e[0]);
                assert(i + e.len() <= raw@.len());
                if e.len() == 1 {
                    assert(seq![s0[k]][0] == s0[k]);
                    assert(e[0] != 0x7e);
                }
                if e.len() == 2 {
                    assert(raw@[i + 1] == p[i + 1]);
                    assert(p[i + 1] == e[1]);
                }
            }
        }
        let b = raw[i];
        if b == 0x7e {
            if i + 1 >= raw.len() {
                proof {
                    assert forall|s: Seq<u8>| #[trigger] escape(s) == raw@ implies false by {
                        assert(has);
                        assert(e.len() == 2);
                    }
                }
                return Err(CodecError::InvalidToken);
            }
            let c = raw[i + 1];
            let v = if c == 0x7a {
                0x1e
            } else if c == 0x7b {
                0x7f
            } else if c == 0x7c {
                0x7e
            } else if c == 0x7d {
                0x5e
            } else if c >= 64 && c < 0x7a {
                c - 64
            } else {
                proof {
                    assert forall|s: Seq<u8>| #[trigger] escape(s) == raw@ implies false by {
                        assert(has);
                        assert(e.len() == 2);
                        assert(c == e[1]);
                        assert(e[1] as int == second_of_pair(s0[k]));
                    }
                }
                return Err(CodecError::InvalidToken);
            };
            proof {
                if has {
                    assert(e[1] as int == second_of_pair(s0[k]));
                    assert(v == s0[k]);
                }
            }
            out.push(v);
            i = i + 2;
        } else {
            out.push(b);
            i = i + 1;
        }
        proof {
            if has {
                assert(s0.take(k + 1) == s0.take(k).push(s0[k]));
                k = k + 1;
            }
        }
    }
    proof {
        if has {
            lemma_escape_prefix(s0, k);
            assert(escape(s0).take(i as int) == escape(s0));
            lemma_escape_injective(s0.take(k), s0);
        }
        assert forall|s: Seq<u8>| #[trigger] escape(s) == raw@ implies (out@ == s) by {
            lemma_escape_injective(s, s0);
        }
    }
    Ok(out)
}

/// The double of a `^F<mantissa>^f<exponent>` token. It reads back exactly
/// the form that the text writer gives every finite double that is not a
/// small whole number.
pub fn number_from_parts(mantissa: &[u8], exponent: &[u8]) -> (r: Result<u64, CodecError>)
    ensures
        r matches Err(e) ==> e == CodecError::InvalidToken,
        forall|bits: u64|
            exponent_field(bits) != 2047 && #[trigger] signed_decimal(
                sign_set(bits),
                parts_mantissa(bits),
            ) == mantissa@ && signed_decimal(
                parts_exponent(bits) < 0,
                (if parts_exponent(bits) < 0 {
                    -parts_exponent(bits)
                } else {
                    parts_exponent(bits)
                }) as nat,
            ) == exponent@ ==> r == Ok::<u64, CodecError>(bits),
{
    proof {
        assert forall|bits: u64| exponent_field(bits) != 2047 implies parts_mantissa(bits) < 2
            * EXPONENT_UNIT && -1075 <= parts_exponent(bits) <= 971 by {}
        assert forall|bits: u64| exponent_field(bits) != 2047 implies #[trigger] bits_of_parts_spec(
            sign_set(bits),
            parts_mantissa(bits),
            parts_exponent(bits),
        ) == Some(bits) by {
            lemma_parts_round_trip(bits);
        }
    }
    match (parse_integer(mantissa), parse_integer(exponent)) {
        (Some((neg, m)), Some((eneg, x))) => {
            if x > 2000 {
                return Err(CodecError::InvalidToken);
            }
            let xi: i64 = if eneg {
                -(x as i64)
            } else {
                x as i64
            };
            match bits_of_parts(neg, m, xi) {
                Some(bits) => Ok(bits),
                None => Err(CodecError::InvalidToken),
            }
        },
        _ => Err(CodecError::InvalidToken),
    }
}

/// The bit pattern of a `^N` number text: infinity tokens, plain integers
/// exactly, other decimals through `parse_decimal`.
pub fn number_from_text<F: Fn(Vec<u8>) -> Option<u64>>(text: Vec<u8>, parse_decimal: &F) -> (r:
    Result<u64, CodecError>)
    requires
        forall|t: Vec<u8>| #[trigger] parse_decimal.requires((t,)),
    ensures
        r matches Err(e) ==> e == CodecError::InvalidToken,
        text@ == seq![49u8, 46u8, 35u8, 73u8, 78u8, 70u8] ==> r == Ok::<u64, CodecError>(
            POSITIVE_INFINITY,
        ),
        text@ == seq![45u8, 49u8, 46u8, 35u8, 73u8, 78u8, 70u8] ==> r == Ok::<
            u64,
            CodecError,
        >(NEGATIVE_INFINITY),
        text@ == seq![105u8, 110u8, 102u8] ==> r == Ok::<u64, CodecError>(POSITIVE_INFINITY),
        text@ == seq![45u8, 105u8, 110u8, 102u8] ==> r == Ok::<u64, CodecError>(NEGATIVE_INFINITY),
        forall|neg: bool, n: nat|
            n < 2 * EXPONENT_UNIT && #[trigger] signed_decimal(neg, n) == text@ ==> (r matches Ok(
                bits,
            ) && integral_magnitude(bits) == Some(n) && sign_set(bits) == neg),
        decimal_admissible(text@) ==> match r {
            Ok(b) => parse_decimal.ensures((text,), Some(b)),
            Err(_) => parse_decimal.ensures((text,), None::<u64>),
        },
{
    if bytes_are(&text, &[49, 46, 35, 73, 78, 70]) || bytes_are(&text, &[105, 110, 102]) {
        proof {
            lemma_not_decimal(text@, 1);
        }
        return Ok(POSITIVE_INFINITY);
    }
    if bytes_are(&text, &[45, 49, 46, 35, 73, 78, 70]) || bytes_are(&text, &[45, 105, 110, 102]) {
        proof {
            if text@.len() == 7 {
                lemma_not_decimal(text@, 2);
            } else {
                lemma_not_decimal(text@, 1);
            }
        }
        return Ok(NEGATIVE_INFINITY);
    }
    match parse_integer(text.as_slice()) {
        Some((neg, n)) => {
            if n < 2 * EXPONENT_UNIT {
                proof {
                    if decimal_admissible(text@) {
                        let i = choose|i: int|
                            0 <= i < text@.len() && !(48 <= #[trigger] text@[i] <= 57) && !(i == 0
                                && text@[i] == 45);
                        if neg {
                            assert(text@.drop_first()[i - 1] == text@[i]);
                        }
                    }
                }
                return Ok(bits_of_integer(neg, n));
            }
        },
        None => {},
    }
    let ghost t = text;
    match parse_decimal(text) {
        Some(bits) => Ok(bits),
        None => Err(CodecError::InvalidToken),
    }
}

/// `key` is the number `i + 1`.
fn is_index_key(key: &LuaMapKey, i: usize) -> (r: bool)
    ensures
        r == (key.value()@ matches Lua::Number(b) && small_integer(b) == Some(i + 1)),
{
    match key.as_value() {
        LuaValue::Number(nb) => match integer_of_bits(*nb) {
            Some(x) => x > 0 && (x - 1) as u64 == i as u64,
            None => false,
        },
        _ => false,
    }
}

/// `rest` is the text stream of the text-encodable value `v`, written with
/// decimals `dec` that `parse` reads back.
pub open spec fn text_written<G: Fn(Vec<u8>) -> Option<u64>>(
    v: Lua,
    dec: spec_fn(u64) -> Option<Seq<u8>>,
    parse: G,
    rest: Seq<u8>,
) -> bool {
    &&& text_encodable(v)
    &&& decimals_read_back(dec, parse)
    &&& ace_encoding(v, dec) == Ok::<Seq<u8>, CodecError>(rest)
}

/// `c` follows `^` at the start of a value token: `^` (the end), `Z`, `B`,
/// `b`, `S`, `N`, `F` or `T`.
pub open spec fn value_marker(c: u8) -> bool {
    c == 0x5e || c == 0x5a || c == 0x42 || c == 0x62 || c == 0x53 || c == 0x4e || c == 0x46 || c
        == 0x54
}

/// The reader state over a text stream: the position and the nesting left.
///
/// `parse_decimal` turns a decimal number that is not a plain integer
/// (`0.5`, `1e+20`) into the bit pattern of the double it denotes, or `None`
/// where it is no number.
pub struct Deserializer<'s, F> {
    remaining_depth: usize,
    data: &'s [u8],
    pos: usize,
    parse_decimal: F,
}

impl<'s, F: Fn(Vec<u8>) -> Option<u64>> Deserializer<'s, F> {
    /// The state is usable.
    pub closed spec fn wf(&self) -> bool {
        &&& self.pos <= self.data@.len()
        &&& forall|t: Vec<u8>| #[trigger] self.parse_decimal.requires((t,))
    }

    /// The nesting left.
    pub closed spec fn depth(&self) -> usize {
        self.remaining_depth
    }

    /// The decimal parser.
    pub closed spec fn parser(&self) -> F {
        self.parse_decimal
    }

    /// The bytes not read yet.
    pub closed spec fn rest(&self) -> Seq<u8> {
        self.data@.subrange(self.pos as int, self.data@.len() as int)
    }

    closed spec fn same_frame(&self, other: &Self) -> bool {
        &&& self.data == other.data
        &&& self.parse_decimal == other.parse_decimal
        &&& self.remaining_depth == other.remaining_depth
        &&& self.wf()
        &&& self.pos >= other.pos
    }

    pub fn from_str(data: &'s [u8], parse_decimal: F) -> (r: Self)
        requires
            forall|t: Vec<u8>| #[trigger] parse_decimal.requires((t,)),
        ensures
            r.wf(),
            r.rest() == data@,
            r.depth() == MAX_DEPTH,
            r.parser() == parse_decimal,
    {
        let r = Deserializer { remaining_depth: MAX_DEPTH, data, pos: 0, parse_decimal };
        assert(r.rest() == data@);
        r
    }

    fn read_header(&mut self) -> (r: Result<(), CodecError>)
        requires
            old(self).wf(),
        ensures
            final(self).same_frame(old(self)),
            r is Ok <==> (old(self).rest().len() >= 2 && old(self).rest()[0] == 0x5e
                && old(self).rest()[1] == 0x31),
            r is Ok ==> final(self).pos == old(self).pos + 2,
            r matches Err(e) ==> e == CodecError::UnsupportedVersion,
    {
        match self.read_identifier() {
            Ok(c) => {
                if c == 0x31 {
                    Ok(())
                } else {
                    Err(CodecError::UnsupportedVersion)
                }
            },
            Err(_) => Err(CodecError::UnsupportedVersion),
        }
    }

    /// Reads every value of the stream, up to `^^`. A stream that is the text
    /// of one text-encodable value reads as that one value's decoded form,
    /// by value.
    pub fn deserialize(self) -> (r: Result<Vec<LuaValue>, CodecError>)
        requires
            self.wf(),
            self.depth() >= 1,
        ensures
            r matches Err(CodecError::UnsupportedVersion) <==> !(self.rest().len() >= 2
                && self.rest()[0] == 0x5e && self.rest()[1] == 0x31),
            self.depth() == MAX_DEPTH && (exists|v: Lua, dec: spec_fn(u64) -> Option<Seq<u8>>|
                #[trigger] text_written(v, dec, self.parser(), self.rest())) ==> (r matches Ok(list)
                && list@.len() == 1 && exists|v: Lua, dec: spec_fn(u64) -> Option<Seq<u8>>|
                #[trigger] text_written(v, dec, self.parser(), self.rest()) && lua_eq(
                decoded(v),
                list@[0]@,
            )),
    {
        let ghost has = self.depth() == MAX_DEPTH && exists|v: Lua, dec: spec_fn(u64) -> Option<Seq<u8>>|
            #[trigger] text_written(v, dec, self.parser(), self.rest());
        let ghost (w, dw) = choose|v: Lua, dec: spec_fn(u64) -> Option<Seq<u8>>|
            #[trigger] text_written(v, dec, self.parser(), self.rest());
        let ghost b = ace(w, MAX_DEPTH as int, dw)->Ok_0;
        let mut this = self;
        proof {
            if has {
                assert(self.rest() == marker(0x31) + b + marker(0x5e));
                assert(self.rest()[0] == 0x5e);
                assert(self.rest()[1] == 0x31);
            }
        }
        match this.read_header() {
            Ok(()) => {},
            Err(e) => {
                return Err(e);
            },
        }
        proof {
            if has {
                assert(this.rest() == self.rest().subrange(2, self.rest().len() as int));
                assert((marker(0x31) + b + marker(0x5e)).subrange(2, self.rest().len() as int) == b
                    + marker(0x5e));
                assert(this.rest() == b + marker(0x5e));
            }
        }
        let mut result: Vec<LuaValue> = Vec::new();
        let mut stage: usize = 0;
        while this.peek_identifier().is_ok()
            invariant
                this.wf(),
                this.remaining_depth >= 1,
                self.rest().len() >= 2 && self.rest()[0] == 0x5e && self.rest()[1] == 0x31,
                stage <= 2,
                has == (self.depth() == MAX_DEPTH && exists|v: Lua, dec: spec_fn(u64) -> Option<Seq<u8>>|
                    #[trigger] text_written(v, dec, self.parser(), self.rest())),
                has ==> text_written(w, dw, self.parser(), self.rest()) && b == ace(
                    w,
                    MAX_DEPTH as int,
                    dw,
                )->Ok_0 && this.parse_decimal == self.parser(),
                has ==> (stage == 0 ==> this.rest() == b + marker(0x5e) && this.remaining_depth
                    == MAX_DEPTH && result@.len() == 0),
                has ==> (stage == 1 ==> this.rest() == marker(0x5e) && result@.len() == 1 && lua_eq(
                    decoded(w),
                    result@[0]@,
                )),
                has ==> (stage == 2 ==> this.rest().len() == 0 && result@.len() == 1 && lua_eq(
                    decoded(w),
                    result@[0]@,
                )),
            decreases this.data@.len() - this.pos,
        {
            let before = this.pos;
            proof {
                if has && stage == 0 {
                    assert(this.rest().take(b.len() as int) == b);
                    assert(this.rest()[b.len() as int] == 0x5e);
                    assert(this.expects(w, dw));
                }
            }
            let ghost g = if stage == 0 {
                w
            } else {
                Lua::Null
            };
            match this.deserialize_helper(Ghost(g), Ghost(dw)) {
                Ok(Some(v)) => {
                    proof {
                        if has {
                            assert(stage == 0);
                            assert((b + marker(0x5e)).skip(b.len() as int) == marker(0x5e));
                        }
                    }
                    result.push(v);
                    stage = 1;
                },
                Ok(None) => {
                    proof {
                        if has {
                            assert(stage == 1);
                            assert(marker(0x5e).skip(2).len() == 0);
                        }
                    }
                    if stage < 2 {
                        stage = stage + 1;
                    }
                },
                Err(e) => {
                    return Err(e);
                },
            }
            if this.pos <= before {
                return Ok(result);
            }
        }
        proof {
            if has {
                assert(stage == 2);
            }
        }
        Ok(result)
    }

    /// Reads the first value of the stream; `None` where the stream ends at
    /// once with `^^`. A stream that is the text of a text-encodable value
    /// reads back as the decoded form of such a value, by value.
    pub fn deserialize_first(self) -> (r: Result<Option<LuaValue>, CodecError>)
        requires
            self.wf(),
            self.depth() >= 1,
        ensures
            r matches Err(CodecError::UnsupportedVersion) <==> !(self.rest().len() >= 2
                && self.rest()[0] == 0x5e && self.rest()[1] == 0x31),
            self.rest() == seq![0x5eu8, 0x31u8, 0x5eu8, 0x5eu8] ==> r matches Ok(None),
            self.rest().len() >= 4 && self.rest()[0] == 0x5e && self.rest()[1] == 0x31
                && self.rest()[2] == 0x5e && !value_marker(self.rest()[3]) ==> r == Err::<
                Option<LuaValue>,
                CodecError,
            >(CodecError::InvalidToken),
            self.depth() == MAX_DEPTH && (exists|v: Lua, dec: spec_fn(u64) -> Option<Seq<u8>>|
                #[trigger] text_written(v, dec, self.parser(), self.rest())) ==> (r matches Ok(Some(x))
                && exists|v: Lua, dec: spec_fn(u64) -> Option<Seq<u8>>|
                #[trigger] text_written(v, dec, self.parser(), self.rest()) && lua_eq(decoded(v), x@)),
    {
        let ghost has = self.depth() == MAX_DEPTH && exists|v: Lua, dec: spec_fn(u64) -> Option<Seq<u8>>|
            #[trigger] text_written(v, dec, self.parser(), self.rest());
        let ghost (w, dec) = choose|v: Lua, dec: spec_fn(u64) -> Option<Seq<u8>>|
            #[trigger] text_written(v, dec, self.parser(), self.rest());
        let ghost b = ace(w, MAX_DEPTH as int, dec)->Ok_0;
        let mut this = self;
        proof {
            if has {
                assert(self.rest() == marker(0x31) + b + marker(0x5e));
                assert(self.rest()[0] == 0x5e);
                assert(self.rest()[1] == 0x31);
            }
        }
        match this.read_header() {
            Ok(()) => {},
            Err(e) => {
                return Err(e);
            },
        }
        proof {
            if self.rest() == seq![0x5eu8, 0x31u8, 0x5eu8, 0x5eu8] {
                assert(this.rest() == seq![0x5eu8, 0x5eu8]);
            }
            assert(this.rest() == self.rest().subrange(2, self.rest().len() as int));
            if self.rest().len() >= 4 {
                assert(this.rest()[0] == self.rest()[2]);
                assert(this.rest()[1] == self.rest()[3]);
            }
            if has {
                assert(this.rest() == self.rest().subrange(2, self.rest().len() as int));
                assert((marker(0x31) + b + marker(0x5e)).subrange(2, self.rest().len() as int) == b
                    + marker(0x5e));
                assert(this.rest() == b + marker(0x5e));
                assert(this.rest().take(b.len() as int) == b);
                assert(this.rest()[b.len() as int] == 0x5e);
                assert(this.expects(w, dec));
            }
        }
        let r = this.deserialize_helper(Ghost(w), Ghost(dec));
        proof {
            if has {
                assert(lua_eq(decoded(w), r->Ok_0->Some_0@));
            }
        }
        r
    }

    /// The character after the `^` of the next token, without reading it.
    fn peek_identifier(&self) -> (r: Result<u8, CodecError>)
        requires
            self.wf(),
        ensures
            match r {
                Ok(c) => self.rest().len() >= 2 && self.rest()[0] == 0x5e && self.rest()[1] == c,
                Err(e) => e != CodecError::UnsupportedVersion && !(self.rest().len() >= 2
                    && self.rest()[0] == 0x5e),
            },
    {
        if self.data.len() - self.pos < 2 {
            return Err(CodecError::TruncatedInput);
        }
        if self.data[self.pos] != 0x5e {
            return Err(CodecError::InvalidToken);
        }
        Ok(self.data[self.pos + 1])
    }

    /// Reads the next token's `^` and the character after it.
    fn read_identifier(&mut self) -> (r: Result<u8, CodecError>)
        requires
            old(self).wf(),
        ensures
            final(self).same_frame(old(self)),
            match r {
                Ok(c) => old(self).rest().len() >= 2 && old(self).rest()[0] == 0x5e && old(self).rest()[1] == c && final(self).pos == old(self).pos + 2 && final(self).rest()
                    == old(self).rest().subrange(2, old(self).rest().len() as int),
                Err(e) => e != CodecError::UnsupportedVersion && !(old(self).rest().len() >= 2
                    && old(self).rest()[0] == 0x5e),
            },
    {
        let c = match self.peek_identifier() {
            Ok(c) => c,
            Err(e) => {
                return Err(e);
            },
        };
        let len = self.data.len();
        assert(self.rest().len() == len - self.pos);
        self.pos = self.pos + 2;
        assert(self.rest() == old(self).rest().subrange(2, old(self).rest().len() as int));
        Ok(c)
    }

    /// Reads the bytes up to the next `^` or the end.
    fn read_until_next(&mut self) -> (r: Vec<u8>)
        requires
            old(self).wf(),
        ensures
            final(self).same_frame(old(self)),
            r@ == old(self).data@.subrange(old(self).pos as int, final(self).pos as int),
            forall|i: int| 0 <= i < r@.len() ==> r@[i] != 0x5e,
            final(self).pos == old(self).data@.len() || old(self).data@[final(self).pos as int]
                == 0x5e,
            forall|t: Seq<u8>|
                #[trigger] caret_free(t) && old(self).rest().len() > t.len() && old(self).rest().take(
                    t.len() as int,
                ) == t && old(self).rest()[t.len() as int] == 0x5e ==> r@ == t && final(self).rest()
                    == old(self).rest().skip(t.len() as int),
    {
        let mut out: Vec<u8> = Vec::new();
        while self.pos < self.data.len() && self.data[self.pos] != 0x5e
            invariant
                self.same_frame(old(self)),
                out@ == old(self).data@.subrange(old(self).pos as int, self.pos as int),
                forall|i: int| 0 <= i < out@.len() ==> out@[i] != 0x5e,
            decreases self.data@.len() - self.pos,
        {
            out.push(self.data[self.pos]);
            self.pos = self.pos + 1;
            assert(out@ == old(self).data@.subrange(old(self).pos as int, self.pos as int));
        }
        proof {
            let p0 = old(self).pos as int;
            let rr = old(self).rest();
            assert forall|t: Seq<u8>|
                #[trigger] caret_free(t) && rr.len() > t.len() && rr.take(t.len() as int) == t && rr[t.len() as int]
                    == 0x5e implies out@ == t && self.rest() == rr.skip(t.len() as int) by {
                if self.pos < p0 + t.len() {
                    assert(self.data@[self.pos as int] == rr[self.pos - p0]);
                    assert(rr[self.pos - p0] == t[self.pos - p0]);
                }
                if self.pos > p0 + t.len() {
                    assert(out@[t.len() as int] == self.data@[p0 + t.len()]);
                    assert(rr[t.len() as int] == self.data@[p0 + t.len()]);
                }
                assert(self.pos == p0 + t.len());
                assert(out@ == t);
                assert(self.rest() == rr.skip(t.len() as int));
            }
        }
        out
    }

    /// The text of `v` at this nesting comes next, then a `^`.
    closed spec fn expects(&self, v: Lua, dec: spec_fn(u64) -> Option<Seq<u8>>) -> bool {
        &&& text_encodable(v)
        &&& decimals_read_back(dec, self.parse_decimal)
        &&& ace(v, self.remaining_depth as int, dec) is Ok
        &&& self.rest().len() > ace(v, self.remaining_depth as int, dec)->Ok_0.len()
        &&& self.rest().take(ace(v, self.remaining_depth as int, dec)->Ok_0.len() as int) == ace(
            v,
            self.remaining_depth as int, dec,
        )->Ok_0
        &&& self.rest()[ace(v, self.remaining_depth as int, dec)->Ok_0.len() as int] == 0x5e
    }

    /// The text of `v` at this nesting comes next but for its first two
    /// bytes, then a `^`.
    closed spec fn expects_tail(&self, v: Lua, dec: spec_fn(u64) -> Option<Seq<u8>>) -> bool {
        &&& text_encodable(v)
        &&& decimals_read_back(dec, self.parse_decimal)
        &&& ace(v, self.remaining_depth as int, dec) is Ok
        &&& self.rest().len() > ace(v, self.remaining_depth as int, dec)->Ok_0.len() - 2
        &&& self.rest().take(ace(v, self.remaining_depth as int, dec)->Ok_0.len() - 2) == ace(
            v,
            self.remaining_depth as int, dec,
        )->Ok_0.skip(2)
        &&& self.rest()[ace(v, self.remaining_depth as int, dec)->Ok_0.len() - 2] == 0x5e
    }

    /// Reads the escaped bytes of a string token.
    fn read_string_tail(&mut self, Ghost(expected): Ghost<Lua>, Ghost(dec): Ghost<spec_fn(u64) -> Option<Seq<u8>>>) -> (r: Result<LuaValue, CodecError>)
        requires
            old(self).wf(),
        ensures
            final(self).same_frame(old(self)),
            r matches Err(e) ==> e == CodecError::InvalidToken,
            old(self).expects_tail(expected, dec) && expected is Str ==> (r matches Ok(x) && x@
                == expected && final(self).rest() == old(self).rest().skip(
                ace(expected, old(self).remaining_depth as int, dec)->Ok_0.len() - 2,
            )),
    {
        let ghost e = self.expects_tail(expected, dec) && expected is Str;
        proof {
            if e {
                lemma_ace_shape(expected, self.remaining_depth as int, dec);
                let t = expected->Str_0;
                lemma_escape_shape(t);
                assert(ace(expected, self.remaining_depth as int, dec)->Ok_0.skip(2) == escape(t));
                assert(caret_free(escape(t)));
            }
        }
        let raw = self.read_until_next();
        match unescape(raw.as_slice()) {
            Ok(s) => Ok(LuaValue::String(s)),
            Err(e) => Err(e),
        }
    }

    /// Reads the decimal text of a `^N` token.
    fn read_number_tail(&mut self, Ghost(expected): Ghost<Lua>, Ghost(dec): Ghost<spec_fn(u64) -> Option<Seq<u8>>>) -> (r: Result<LuaValue, CodecError>)
        requires
            old(self).wf(),
        ensures
            final(self).same_frame(old(self)),
            r != Err::<LuaValue, CodecError>(CodecError::UnsupportedVersion),
            old(self).expects_tail(expected, dec) && ace(expected, old(self).remaining_depth as int, dec)->Ok_0[1]
                == 0x4e ==> (r matches Ok(x) && lua_eq(expected, x@) && final(self).rest() == old(self).rest().skip(ace(expected, old(self).remaining_depth as int, dec)->Ok_0.len() - 2)),
    {
        let ghost b = ace(expected, self.remaining_depth as int, dec)->Ok_0;
        let ghost e = self.expects_tail(expected, dec) && b[1] == 0x4e;
        let ghost orig = expected->Number_0;
        proof {
            if e {
                lemma_ace_shape(expected, self.remaining_depth as int, dec);
                if exponent_field(orig) == 2047 {
                    assert(caret_free(b.skip(2)));
                } else if integer_token(orig) {
                    let x = integral_value(orig)->Some_0;
                    lemma_signed_decimal_caret_free(x < 0, magnitude(x));
                    assert(b.skip(2) == signed_decimal(x < 0, magnitude(x)));
                } else {
                    assert(dec(orig) is Some);
                    assert(b.skip(2) == dec(orig)->Some_0);
                    assert(decimal_admissible(dec(orig)->Some_0));
                    assert(caret_free(b.skip(2)));
                }
            }
        }
        let text = self.read_until_next();
        let ghost t = text;
        proof {
            if e {
                assert(t@ == b.skip(2));
                if exponent_field(orig) == 2047 {
                    assert(fraction_field(orig) == 0);
                    assert(orig == orig / EXPONENT_UNIT * EXPONENT_UNIT + orig % EXPONENT_UNIT);
                    if sign_set(orig) {
                        assert(orig / EXPONENT_UNIT == 4095);
                        assert(t@ == seq![45u8, 49u8, 46u8, 35u8, 73u8, 78u8, 70u8]);
                    } else {
                        assert(orig / EXPONENT_UNIT == 2047);
                        assert(t@ == seq![49u8, 46u8, 35u8, 73u8, 78u8, 70u8]);
                    }
                } else if integer_token(orig) {
                    let x = integral_value(orig)->Some_0;
                    assert(t@ == signed_decimal(x < 0, magnitude(x)));
                    assert(magnitude(x) < 2 * EXPONENT_UNIT);
                } else {
                    assert(decimal_admissible(t@));
                }
            }
        }
        match number_from_text(text, &self.parse_decimal) {
            Ok(bits) => {
                proof {
                    if e {
                        if exponent_field(orig) != 2047 {
                            if integer_token(orig) {
                                let x = integral_value(orig)->Some_0;
                                assert(integral_value(bits) == Some(x));
                            } else {
                                assert(self.parse_decimal.ensures((t,), Some(bits)));
                                assert(bits == orig);
                            }
                        }
                    }
                }
                Ok(LuaValue::Number(bits))
            },
            Err(err) => {
                proof {
                    if e && exponent_field(orig) != 2047 && !integer_token(orig) {
                        assert(self.parse_decimal.ensures((t,), None::<u64>));
                    }
                }
                Err(err)
            },
        }
    }

    /// Reads the mantissa, `^f` and exponent of a `^F` token.
    fn read_fraction_tail(&mut self, Ghost(expected): Ghost<Lua>, Ghost(dec): Ghost<spec_fn(u64) -> Option<Seq<u8>>>) -> (r: Result<
        LuaValue,
        CodecError,
    >)
        requires
            old(self).wf(),
        ensures
            final(self).same_frame(old(self)),
            r != Err::<LuaValue, CodecError>(CodecError::UnsupportedVersion),
            old(self).expects_tail(expected, dec) && ace(expected, old(self).remaining_depth as int, dec)->Ok_0[1]
                == 0x46 ==> (r matches Ok(x) && x@ == expected && final(self).rest() == old(self).rest().skip(ace(expected, old(self).remaining_depth as int, dec)->Ok_0.len() - 2)),
    {
        let ghost b = ace(expected, self.remaining_depth as int, dec)->Ok_0;
        let ghost e = self.expects_tail(expected, dec) && b[1] == 0x46;
        let ghost start = self.rest();
        let ghost bits0 = expected->Number_0;
        let ghost neg = sign_set(bits0);
        let ghost ex = parts_exponent(bits0);
        let ghost t1 = signed_decimal(neg, parts_mantissa(bits0));
        let ghost t2 = signed_decimal(ex < 0, magnitude(ex));
        proof {
            if e {
                lemma_ace_shape(expected, self.remaining_depth as int, dec);
                lemma_signed_decimal_caret_free(neg, parts_mantissa(bits0));
                lemma_signed_decimal_caret_free(ex < 0, magnitude(ex));
                let tail = t1 + marker(0x66) + t2;
                assert(b.skip(2) == tail);
                assert(start.take(t1.len() as int) == tail.take(t1.len() as int));
                assert(tail.take(t1.len() as int) == t1);
                assert(start[t1.len() as int] == tail[t1.len() as int]);
                assert(start[t1.len() + 1int] == tail[t1.len() + 1int]);
            }
        }
        let mantissa = self.read_until_next();
        match self.read_identifier() {
            Ok(c) => {
                if c != 0x66 {
                    return Err(CodecError::InvalidToken);
                }
            },
            Err(e) => {
                return Err(e);
            },
        }
        proof {
            if e {
                let tail = t1 + marker(0x66) + t2;
                assert(self.rest() == start.skip(t1.len() + 2int));
                assert(tail.skip(t1.len() + 2int) == t2);
                lemma_follow(start, tail, t1.len() + 2int);
            }
        }
        let exponent = self.read_until_next();
        match number_from_parts(mantissa.as_slice(), exponent.as_slice()) {
            Ok(bits) => {
                proof {
                    if e {
                        assert(bits == bits0);
                        lemma_skip_skip(start, t1.len() + 2int, t2.len() as int);
                    }
                }
                Ok(LuaValue::Number(bits))
            },
            Err(e) => Err(e),
        }
    }

    /// Reads the next value; `None` at `^^`. Where the text of `expected`
    /// comes next, the value read is `decoded(expected)` by value.
    fn deserialize_helper(&mut self, Ghost(expected): Ghost<Lua>, Ghost(dec): Ghost<spec_fn(u64) -> Option<Seq<u8>>>) -> (r: Result<
        Option<LuaValue>,
        CodecError,
    >)
        requires
            old(self).wf(),
            old(self).remaining_depth >= 1,
        ensures
            final(self).same_frame(old(self)),
            r is Ok ==> final(self).pos > old(self).pos,
            r != Err::<Option<LuaValue>, CodecError>(CodecError::UnsupportedVersion),
            old(self).rest().len() >= 2 && old(self).rest()[0] == 0x5e && old(self).rest()[1]
                == 0x5e ==> r matches Ok(None),
            old(self).expects(expected, dec) ==> (r matches Ok(Some(x)) && lua_eq(decoded(expected), x@)
                && final(self).rest() == old(self).rest().skip(
                ace(expected, old(self).remaining_depth as int, dec)->Ok_0.len() as int,
            )),
            old(self).rest().len() >= 2 && old(self).rest()[0] == 0x5e && !value_marker(
                old(self).rest()[1],
            ) ==> r == Err::<Option<LuaValue>, CodecError>(CodecError::InvalidToken),
            old(self).rest().len() >= 2 && old(self).rest()[0] == 0x5e && old(self).rest()[1] == 0x5e
                ==> final(self).rest() == old(self).rest().skip(2),
        decreases old(self).remaining_depth, 2int,
    {
        let ghost e = self.expects(expected, dec);
        let ghost d = self.remaining_depth as int;
        let ghost b = ace(expected, d, dec)->Ok_0;
        let ghost start = self.rest();
        proof {
            if e {
                lemma_ace_shape(expected, d, dec);
                assert(start[0] == b[0]);
                assert(start[1] == b[1]);
            }
        }
        let id = match self.read_identifier() {
            Ok(c) => c,
            Err(e) => {
                return Err(e);
            },
        };
        proof {
            if e {
                lemma_follow(start, b, 2);
                assert(self.expects_tail(expected, dec));
                lemma_skip_skip(start, 2, b.len() - 2);
            }
        }
        if id == 0x5e {
            Ok(None)
        } else if id == 0x5a {
            Ok(Some(LuaValue::Null))
        } else if id == 0x42 {
            Ok(Some(LuaValue::Boolean(true)))
        } else if id == 0x62 {
            Ok(Some(LuaValue::Boolean(false)))
        } else if id == 0x53 {
            match self.read_string_tail(Ghost(expected), Ghost(dec)) {
                Ok(v) => Ok(Some(v)),
                Err(e) => Err(e),
            }
        } else if id == 0x4e {
            match self.read_number_tail(Ghost(expected), Ghost(dec)) {
                Ok(v) => Ok(Some(v)),
                Err(e) => Err(e),
            }
        } else if id == 0x46 {
            match self.read_fraction_tail(Ghost(expected), Ghost(dec)) {
                Ok(v) => Ok(Some(v)),
                Err(e) => Err(e),
            }
        } else if id == 0x54 {
            proof {
                if e {
                    assert(b == marker(0x54) + table_body(expected, d, dec) + marker(0x74));
                    assert(b.skip(2) == table_body(expected, d, dec) + marker(0x74));
                    assert(self.expects_table(expected, dec));
                }
            }
            match self.deserialize_table(Ghost(expected), Ghost(dec)) {
                Ok(v) => Ok(Some(v)),
                Err(e) => Err(e),
            }
        } else {
            Err(CodecError::InvalidToken)
        }
    }

    /// The text of the key `k`, then of the value `v`, at this nesting,
    /// comes next, then a `^`.
    closed spec fn expects_entry(&self, k: Lua, v: Lua, dec: spec_fn(u64) -> Option<Seq<u8>>) -> bool {
        &&& !(k is Null)
        &&& text_encodable(k)
        &&& text_encodable(v)
        &&& decimals_read_back(dec, self.parse_decimal)
        &&& ace(k, self.remaining_depth as int, dec) is Ok
        &&& ace(v, self.remaining_depth as int, dec) is Ok
        &&& self.rest().len() > ace(k, self.remaining_depth as int, dec)->Ok_0.len() + ace(
            v,
            self.remaining_depth as int, dec,
        )->Ok_0.len()
        &&& self.rest().take(
            (ace(k, self.remaining_depth as int, dec)->Ok_0.len() + ace(
                v,
                self.remaining_depth as int, dec,
            )->Ok_0.len()) as int,
        ) == ace(k, self.remaining_depth as int, dec)->Ok_0 + ace(v, self.remaining_depth as int, dec)->Ok_0
        &&& self.rest()[(ace(k, self.remaining_depth as int, dec)->Ok_0.len() + ace(
            v,
            self.remaining_depth as int, dec,
        )->Ok_0.len()) as int] == 0x5e
    }

    /// Reads one key and its value.
    fn read_entry(&mut self, Ghost(k): Ghost<Lua>, Ghost(v): Ghost<Lua>, Ghost(dec): Ghost<spec_fn(u64) -> Option<Seq<u8>>>) -> (r: Result<
        (LuaMapKey, LuaValue),
        CodecError,
    >)
        requires
            old(self).wf(),
            old(self).remaining_depth >= 1,
        ensures
            final(self).same_frame(old(self)),
            r is Ok ==> final(self).pos >= old(self).pos + 2,
            r != Err::<(LuaMapKey, LuaValue), CodecError>(CodecError::UnsupportedVersion),
            old(self).expects_entry(k, v, dec) ==> (r matches Ok((x, y)) && lua_eq(decoded(k), x.value()@)
                && lua_eq(decoded(v), y@) && final(self).rest() == old(self).rest().skip(
                (ace(k, old(self).remaining_depth as int, dec)->Ok_0.len() + ace(
                    v,
                    old(self).remaining_depth as int, dec,
                )->Ok_0.len()) as int,
            )),
        decreases old(self).remaining_depth, 3int,
    {
        let ghost e = self.expects_entry(k, v, dec);
        let ghost d = self.remaining_depth as int;
        let ghost ck = ace(k, d, dec)->Ok_0;
        let ghost cv = ace(v, d, dec)->Ok_0;
        let ghost start = self.rest();
        proof {
            if e {
                lemma_ace_shape(v, d, dec);
                lemma_ace_shape(k, d, dec);
                assert(start.take(ck.len() as int) == (ck + cv).take(ck.len() as int));
                assert((ck + cv).take(ck.len() as int) == ck);
                assert(start[ck.len() as int] == (ck + cv)[ck.len() as int]);
                assert(self.expects(k, dec));
            }
        }
        let key = match self.deserialize_helper(Ghost(k), Ghost(dec)) {
            Ok(Some(x)) => x,
            Ok(None) => {
                return Err(CodecError::InvalidToken);
            },
            Err(err) => {
                return Err(err);
            },
        };
        proof {
            if e {
                lemma_follow(start, ck + cv, ck.len() as int);
                assert((ck + cv).skip(ck.len() as int) == cv);
                assert(self.rest()[0] == cv[0]);
                assert(self.rest()[1] == cv[1]);
                assert(self.expects(v, dec));
                assert(key@ != Lua::Null);
            }
        }
        let key = match LuaMapKey::from_value(key) {
            Ok(x) => x,
            Err(err) => {
                return Err(err);
            },
        };
        match self.peek_identifier() {
            Ok(c) => {
                if c == 0x74 {
                    return Err(CodecError::InvalidToken);
                }
            },
            Err(err) => {
                return Err(err);
            },
        }
        let value = match self.deserialize_helper(Ghost(v), Ghost(dec)) {
            Ok(Some(y)) => y,
            Ok(None) => {
                return Err(CodecError::InvalidToken);
            },
            Err(err) => {
                return Err(err);
            },
        };
        proof {
            if e {
                lemma_skip_skip(start, ck.len() as int, cv.len() as int);
            }
        }
        Ok((key, value))
    }

    /// The text of the table `v` at this nesting comes next, after its `^T`,
    /// then a `^`.
    closed spec fn expects_table(&self, v: Lua, dec: spec_fn(u64) -> Option<Seq<u8>>) -> bool {
        &&& text_encodable(v)
        &&& (v is Array || v is Mapping)
        &&& decimals_read_back(dec, self.parse_decimal)
        &&& ace(v, self.remaining_depth as int, dec) is Ok
        &&& self.rest().len() > table_body(v, self.remaining_depth as int, dec).len() + 2
        &&& self.rest().take(table_body(v, self.remaining_depth as int, dec).len() + 2int) == table_body(
            v,
            self.remaining_depth as int, dec,
        ) + marker(0x74)
        &&& self.rest()[table_body(v, self.remaining_depth as int, dec).len() + 2int] == 0x5e
    }

    /// Reads the entries of a table after its `^T`, up to `^t`: an array
    /// where the keys are 1, 2, ... in order, a map otherwise.
    fn deserialize_table(&mut self, Ghost(expected): Ghost<Lua>, Ghost(dec): Ghost<spec_fn(u64) -> Option<Seq<u8>>>) -> (r: Result<
        LuaValue,
        CodecError,
    >)
        requires
            old(self).wf(),
            old(self).remaining_depth >= 1,
        ensures
            final(self).same_frame(old(self)),
            r != Err::<LuaValue, CodecError>(CodecError::UnsupportedVersion),
            old(self).expects_table(expected, dec) ==> (r matches Ok(x) && lua_eq(decoded(expected), x@)
                && final(self).rest() == old(self).rest().skip(
                table_body(expected, old(self).remaining_depth as int, dec).len() + 2int,
            )),
        decreases old(self).remaining_depth, 1int,
    {
        let ghost e = self.expects_table(expected, dec);
        let ghost d = self.remaining_depth as int;
        let ghost start = self.rest();
        proof {
            if e {
                lemma_table_start(expected, d, start, dec);
            }
        }
        let mut values: Vec<LuaValue> = Vec::new();
        let mut m: Vec<(LuaMapKey, LuaValue)> = Vec::new();
        let mut is_array = true;
        let mut i: usize = 0;
        let ghost mut rest_at_i = start;
        loop
            invariant_except_break
                rest_at_i == self.rest(),
            invariant
                self.same_frame(old(self)),
                self.remaining_depth == d,
                d == old(self).remaining_depth,
                d >= 1,
                start == old(self).rest(),
                e == old(self).expects_table(expected, dec),
                e ==> decimals_read_back(dec, self.parse_decimal),
                i <= self.pos,
                e ==> table_inv(
                    expected,
                    d,
                    i as int,
                    start,
                    rest_at_i,
                    view_seq(values@),
                    view_pairs(m@),
                    is_array, dec,
                ),
            ensures
                e ==> i == entry_count(expected) && self.rest() == start.skip(
                    table_body(expected, d, dec).len() + 2int,
                ),
            decreases self.data@.len() - self.pos,
        {
            match self.table_step(i, &mut values, &mut m, &mut is_array, Ghost(expected), Ghost(start), Ghost(dec)) {
                Ok(true) => {
                    break ;
                },
                Ok(false) => {},
                Err(err) => {
                    return Err(err);
                },
            }
            i = i + 1;
            proof {
                rest_at_i = self.rest();
            }
        }
        proof {
            if e {
                lemma_table_result(
                    expected,
                    d,
                    i as int,
                    start,
                    rest_at_i,
                    view_seq(values@),
                    view_pairs(m@),
                    is_array, dec,
                );
            }
        }
        if is_array {
            Ok(LuaValue::Array(values))
        } else {
            Ok(LuaValue::Mapping(m))
        }
    }

    /// One step of reading a table: `^t` ends it (`true`), any other token
    /// starts an entry, which is read into `values` and `m`.
    #[verifier::spinoff_prover]
    #[verifier::rlimit(100)]
    fn table_step(
        &mut self,
        i: usize,
        values: &mut Vec<LuaValue>,
        m: &mut Vec<(LuaMapKey, LuaValue)>,
        is_array: &mut bool,
        Ghost(expected): Ghost<Lua>,
        Ghost(start): Ghost<Seq<u8>>, Ghost(dec): Ghost<spec_fn(u64) -> Option<Seq<u8>>>,
    ) -> (r: Result<bool, CodecError>)
        requires
            old(self).wf(),
            old(self).remaining_depth >= 1,
        ensures
            final(self).same_frame(old(self)),
            r != Err::<bool, CodecError>(CodecError::UnsupportedVersion),
            r == Ok::<bool, CodecError>(false) ==> final(self).pos >= old(self).pos + 2,
            decimals_read_back(dec, old(self).parse_decimal) && table_inv(
                expected,
                old(self).remaining_depth as int,
                i as int,
                start,
                old(self).rest(),
                view_seq(old(values)@),
                view_pairs(old(m)@),
                *old(is_array), dec,
            ) ==> {
                ||| (r == Ok::<bool, CodecError>(true) && i == entry_count(expected) && final(self).rest() == start.skip(table_body(expected, old(self).remaining_depth as int, dec).len() + 2int)
                    && view_seq(final(values)@) == view_seq(old(values)@) && view_pairs(final(m)@)
                    == view_pairs(old(m)@) && *final(is_array) == *old(is_array))
                ||| (r == Ok::<bool, CodecError>(false) && table_inv(
                    expected,
                    old(self).remaining_depth as int,
                    i + 1,
                    start,
                    final(self).rest(),
                    view_seq(final(values)@),
                    view_pairs(final(m)@),
                    *final(is_array), dec,
                ))
            },
        decreases old(self).remaining_depth, 0int,
    {
        let ghost e = decimals_read_back(dec, self.parse_decimal) && table_inv(
            expected,
            self.remaining_depth as int,
            i as int,
            start,
            self.rest(),
            view_seq(values@),
            view_pairs(m@),
            *is_array, dec,
        );
        let ghost d = self.remaining_depth as int;
        let ghost pi = table_prefix(expected, i as int, d, dec)->Ok_0;
        proof {
            if e {
                reveal(table_inv);
                lemma_table_peek(expected, d, i as int, start, dec);
            }
        }
        let id = match self.peek_identifier() {
            Ok(c) => c,
            Err(err) => {
                return Err(err);
            },
        };
        if id == 0x74 {
            let _ = self.read_identifier();
            proof {
                if e {
                    lemma_skip_skip(start, table_body(expected, d, dec).len() as int, 2);
                }
            }
            return Ok(true);
        }
        if self.remaining_depth <= 1 {
            return Err(CodecError::RecursionLimit);
        }
        self.remaining_depth = self.remaining_depth - 1;
        let kb = if (i as u64) < 0x1f_ffff_ffff_ffff {
            bits_of_integer(false, i as u64 + 1)
        } else {
            0
        };
        let ghost kexp = entry_key(expected, i as int, kb);
        let ghost vexp = entry_value(expected, i as int);
        let ghost ck = ace(kexp, d - 1, dec)->Ok_0;
        let ghost cv = ace(vexp, d - 1, dec)->Ok_0;
        proof {
            if e {
                lemma_table_entry(expected, d, i as int, kb, start, dec);
                assert(self.expects_entry(kexp, vexp, dec));
            }
        }
        let (key, value) = match self.read_entry(Ghost(kexp), Ghost(vexp), Ghost(dec)) {
            Ok(kv) => kv,
            Err(err) => {
                self.remaining_depth = self.remaining_depth + 1;
                return Err(err);
            },
        };
        self.remaining_depth = self.remaining_depth + 1;
        proof {
            if e {
                lemma_skip_skip(start, pi.len() as int, (ck.len() + cv.len()) as int);
            }
        }
        let dense_here = is_index_key(&key, i);
        let ghost before_m = view_pairs(m@);
        let ghost before_v = view_seq(values@);
        let ghost was_array = *is_array;
        *is_array = *is_array && dense_here;
        proof {
            if e {
                if expected is Mapping {
                    lemma_table_fresh_key(expected->Mapping_0, i as int, before_m, key.value()@);
                }
            }
        }
        let copy = value.deep_clone();
        let ghost kx = key.value()@;
        let ghost vx = value@;
        let ghost old_vals = values@;
        values.push(copy);
        assert(values@.drop_last() == old_vals);
        map_insert(m, key, value);
        proof {
            assert(view_seq(values@) == before_v.push(vx));
            if e {
                if expected is Mapping {
                    assert(view_pairs(m@) == before_m.push((kx, vx)));
                }
                lemma_table_progress(
                    expected,
                    i as int,
                    kb,
                    kx,
                    vx,
                    before_v,
                    before_m,
                    was_array,
                    dense_here,
                );
                reveal(table_inv);
            }
        }
        Ok(false)
    }
}

/// `a` holds exactly the bytes `b`.
fn bytes_are(a: &Vec<u8>, b: &[u8]) -> (r: bool)
    ensures
        r == (a@ == b@),
{
    crate::bytes::bytes_equal(a.as_slice(), b)
}

/// The expected key of entry `i` of the table `v`; `kb` is the double of
/// `i + 1` for an array.
pub open spec fn entry_key(v: Lua, i: int, kb: u64) -> Lua {
    match v {
        Lua::Array(_) => Lua::Number(kb),
        Lua::Mapping(p) => p[i].0,
        _ => Lua::Null,
    }
}

/// The expected value of entry `i` of the table `v`.
pub open spec fn entry_value(v: Lua, i: int) -> Lua {
    match v {
        Lua::Array(it) => it[i],
        Lua::Mapping(p) => p[i].1,
        _ => Lua::Null,
    }
}

/// The number of entries of the table `v`.
pub open spec fn entry_count(v: Lua) -> int {
    match v {
        Lua::Array(it) => it.len() as int,
        Lua::Mapping(p) => p.len() as int,
        _ => 0,
    }
}

/// The facts a table reader holds before entry `i`.
#[verifier::opaque]
pub open spec fn table_state(v: Lua, d: int, i: int, start: Seq<u8>, dec: spec_fn(u64) -> Option<Seq<u8>>) -> bool {
    &&& (v is Array || v is Mapping)
    &&& text_encodable(v)
    &&& ace(v, d, dec) is Ok
    &&& start.len() > table_body(v, d, dec).len() + 2
    &&& start.take(table_body(v, d, dec).len() + 2int) == table_body(v, d, dec) + marker(0x74)
    &&& start[table_body(v, d, dec).len() + 2int] == 0x5e
    &&& 0 <= i <= entry_count(v)
    &&& table_prefix(v, i, d, dec) is Ok
    &&& table_prefix(v, i, d, dec)->Ok_0.len() <= table_body(v, d, dec).len()
    &&& table_body(v, d, dec).take(table_prefix(v, i, d, dec)->Ok_0.len() as int) == table_prefix(v, i, d, dec)->Ok_0
}

proof fn lemma_table_peek(v: Lua, d: int, i: int, start: Seq<u8>, dec: spec_fn(u64) -> Option<Seq<u8>>)
    requires
        table_state(v, d, i, start, dec),
    ensures
        i < entry_count(v) ==> d > 1,
        (v is Array || v is Mapping),
        text_encodable(v),
        0 <= i <= entry_count(v),
        ({
            let pi = table_prefix(v, i, d, dec)->Ok_0;
            &&& start.len() > pi.len() + 1
            &&& start[pi.len() as int] == 0x5e
            &&& (i < entry_count(v) ==> start[pi.len() + 1int] != 0x74)
            &&& (i == entry_count(v) ==> start[pi.len() + 1int] == 0x74 && pi == table_body(v, d, dec))
        }),
{
    reveal(table_state);
    let body = table_body(v, d, dec);
    let pi = table_prefix(v, i, d, dec)->Ok_0;
    match v {
        Lua::Array(items) => {
            if i < items.len() {
                lemma_ace_items_rest(items, i, d, dec);
                lemma_ace_items_prefix(items, i + 1, d, dec);
                assert(items.subrange(0, i + 1).drop_last() == items.subrange(0, i));
            } else {
                assert(items.subrange(0, i) == items);
            }
        },
        Lua::Mapping(pairs) => {
            if i < pairs.len() {
                lemma_ace_pairs_rest(pairs, i, d, dec);
                lemma_ace_pairs_prefix(pairs, i + 1, d, dec);
                assert(pairs.subrange(0, i + 1).drop_last() == pairs.subrange(0, i));
            } else {
                assert(pairs.subrange(0, i) == pairs);
            }
        },
        _ => {},
    }
    if i < entry_count(v) {
        assert(start[pi.len() as int] == start.take(body.len() + 2int)[pi.len() as int]);
        assert(start[pi.len() + 1int] == start.take(body.len() + 2int)[pi.len() + 1int]);
    } else {
        assert(start[body.len() as int] == start.take(body.len() + 2int)[body.len() as int]);
        assert(start[body.len() + 1int] == start.take(body.len() + 2int)[body.len() + 1int]);
    }
}

#[verifier::spinoff_prover]
#[verifier::rlimit(100)]
proof fn lemma_table_entry(v: Lua, d: int, i: int, kb: u64, start: Seq<u8>, dec: spec_fn(u64) -> Option<Seq<u8>>)
    requires
        table_state(v, d, i, start, dec),
        i < entry_count(v),
        entry_count(v) < 2 * EXPONENT_UNIT,
        v is Array ==> integral_value(kb) == Some(i + 1) && exponent_field(kb) != 2047
            && !sign_set(kb),
    ensures
        ({
            let pi = table_prefix(v, i, d, dec)->Ok_0;
            let k = entry_key(v, i, kb);
            let w = entry_value(v, i);
            let ck = ace(k, d - 1, dec)->Ok_0;
            let cw = ace(w, d - 1, dec)->Ok_0;
            &&& d > 1
            &&& !(k is Null)
            &&& text_encodable(k)
            &&& text_encodable(w)
            &&& ace(k, d - 1, dec) is Ok
            &&& ace(w, d - 1, dec) is Ok
            &&& table_prefix(v, i + 1, d, dec) == Ok::<Seq<u8>, CodecError>(pi + (ck + cw))
            &&& table_state(v, d, i + 1, start, dec)
            &&& start.skip(pi.len() as int).len() > ck.len() + cw.len()
            &&& start.skip(pi.len() as int).take((ck.len() + cw.len()) as int) == ck + cw
            &&& start.skip(pi.len() as int)[(ck.len() + cw.len()) as int] == 0x5e
        }),
{
    reveal(table_state);
    let body = table_body(v, d, dec);
    let pi = table_prefix(v, i, d, dec)->Ok_0;
    let k = entry_key(v, i, kb);
    let w = entry_value(v, i);
    let ck = ace(k, d - 1, dec)->Ok_0;
    let cw = ace(w, d - 1, dec)->Ok_0;
    match v {
        Lua::Array(items) => {
            lemma_items_text_index(items);
            lemma_ace_items_prefix(items, i + 1, d, dec);
            assert(items.subrange(0, i + 1).drop_last() == items.subrange(0, i));
            assert(items.subrange(0, i + 1).last() == items[i]);
            assert(number_token(kb, dec) == Ok::<Seq<u8>, CodecError>(marker(0x4e) + decimal((i + 1) as nat)));
            if i + 1 < items.len() {
                lemma_ace_items_rest(items, i + 1, d, dec);
            } else {
                assert(items.subrange(0, i + 1) == items);
            }
        },
        Lua::Mapping(pairs) => {
            lemma_pairs_text_index(pairs);
            lemma_ace_pairs_prefix(pairs, i + 1, d, dec);
            assert(pairs.subrange(0, i + 1).drop_last() == pairs.subrange(0, i));
            assert(pairs.subrange(0, i + 1).last() == pairs[i]);
            if i + 1 < pairs.len() {
                lemma_ace_pairs_rest(pairs, i + 1, d, dec);
            } else {
                assert(pairs.subrange(0, i + 1) == pairs);
            }
        },
        _ => {},
    }
    let pn = table_prefix(v, i + 1, d, dec)->Ok_0;
    assert(pn == pi + ck + cw);
    assert(pn == pi + (ck + cw));
    assert(start.take(body.len() as int) == body);
    lemma_window(start, body, pn, pi.len() as int);
    assert(pn.skip(pi.len() as int) == ck + cw);
    if i + 1 < entry_count(v) {
        assert(start[pn.len() as int] == start.take(body.len() + 2int)[pn.len() as int]);
    } else {
        assert(pn == body);
        assert(start[pn.len() as int] == start.take(body.len() + 2int)[pn.len() as int]);
    }
    assert(start.skip(pi.len() as int)[(ck.len() + cw.len()) as int] == start[pn.len() as int]);
}

/// A key that reads back as a later key of a text-encodable map is no key
/// read before it.
proof fn lemma_table_fresh_key(pairs: Seq<(Lua, Lua)>, i: int, before: Seq<(Lua, Lua)>, x: Lua)
    requires
        pairs_text_encodable(pairs),
        0 <= i < pairs.len(),
        pairs_eq(decoded_pairs(pairs.subrange(0, i)), before),
        lua_eq(decoded(pairs[i].0), x),
    ensures
        key_position(before, x) is None,
{
    lemma_pairs_text_index(pairs);
    lemma_decoded_pairs_index(pairs.subrange(0, i));
    lemma_pairs_eq_index(decoded_pairs(pairs.subrange(0, i)), before);
    lemma_key_position_some(before, x);
    if key_position(before, x) is Some {
        let j = key_position(before, x)->Some_0;
        assert(pairs.subrange(0, i)[j as int] == pairs[j as int]);
        assert(decoded_pairs(pairs.subrange(0, i))[j as int] == (
            decoded(pairs[j as int].0),
            decoded(pairs[j as int].1),
        ));
        assert(lua_eq(decoded_pairs(pairs.subrange(0, i))[j as int].0, before[j as int].0));
        lemma_key_eq_transfer(decoded(pairs[j as int].0), before[j as int].0, decoded(pairs[i].0), x);
        assert(false);
    }
}

/// A key reads back as the number `i + 1` exactly when it is that number.
proof fn lemma_dense_key(k: Lua, x: Lua, i: int)
    requires
        lua_eq(decoded(k), x),
        0 <= i < 2 * EXPONENT_UNIT,
    ensures
        (x matches Lua::Number(b) && small_integer(b) == Some(i + 1)) == (k matches Lua::Number(c)
            && integral_value(c) == Some(i + 1)),
{
}

/// One entry more in the values and pairs a table reader has collected.
#[verifier::spinoff_prover]
#[verifier::rlimit(100)]
proof fn lemma_table_progress(
    v: Lua,
    i: int,
    kb: u64,
    kx: Lua,
    vx: Lua,
    vs: Seq<Lua>,
    ms: Seq<(Lua, Lua)>,
    was_array: bool,
    dense_here: bool,
)
    requires
        v is Array || v is Mapping,
        0 <= i < entry_count(v),
        entry_count(v) < 2 * EXPONENT_UNIT,
        v is Array ==> integral_value(kb) == Some(i + 1),
        lua_eq(decoded(entry_key(v, i, kb)), kx),
        lua_eq(decoded(entry_value(v, i)), vx),
        dense_here == (kx matches Lua::Number(b) && small_integer(b) == Some(i + 1)),
        v matches Lua::Array(items) ==> was_array && items_eq(decoded_items(items.subrange(0, i)), vs),
        v matches Lua::Mapping(pairs) ==> was_array == dense_keys(pairs.subrange(0, i)) && items_eq(
            decoded_values(pairs.subrange(0, i)),
            vs,
        ) && pairs_eq(decoded_pairs(pairs.subrange(0, i)), ms),
    ensures
        v matches Lua::Array(items) ==> (was_array && dense_here) && items_eq(
            decoded_items(items.subrange(0, i + 1)),
            vs.push(vx),
        ),
        v matches Lua::Mapping(pairs) ==> (was_array && dense_here) == dense_keys(
            pairs.subrange(0, i + 1),
        ) && items_eq(decoded_values(pairs.subrange(0, i + 1)), vs.push(vx)) && pairs_eq(
            decoded_pairs(pairs.subrange(0, i + 1)),
            ms.push((kx, vx)),
        ),
{
    lemma_dense_key(entry_key(v, i, kb), kx, i);
    match v {
        Lua::Array(items) => {
            lemma_decoded_step(items, Seq::<(Lua, Lua)>::empty(), i);
            let dd = decoded_items(items.subrange(0, i + 1));
            assert(dd.drop_last() == decoded_items(items.subrange(0, i)));
            assert(dd.last() == decoded(items[i]));
            assert(vs.push(vx).drop_last() == vs);
            assert(items_eq(dd, vs.push(vx)));
        },
        Lua::Mapping(pairs) => {
            lemma_decoded_step(Seq::<Lua>::empty(), pairs, i);
            lemma_dense_step(pairs, i);
            let dv = decoded_values(pairs.subrange(0, i + 1));
            let dp = decoded_pairs(pairs.subrange(0, i + 1));
            assert(dv.drop_last() == decoded_values(pairs.subrange(0, i)));
            assert(dv.last() == decoded(pairs[i].1));
            assert(dp.drop_last() == decoded_pairs(pairs.subrange(0, i)));
            assert(dp.last() == (decoded(pairs[i].0), decoded(pairs[i].1)));
            assert(vs.push(vx).drop_last() == vs);
            assert(ms.push((kx, vx)).drop_last() == ms);
            assert(items_eq(dv, vs.push(vx)));
            assert(pairs_eq(dp, ms.push((kx, vx))));
        },
        _ => {},
    }
}

/// What a table reader holds before entry `i`: the rest of the stream, and
/// the values, pairs and array flag read so far.
#[verifier::opaque]
pub open spec fn table_inv(
    v: Lua,
    d: int,
    i: int,
    start: Seq<u8>,
    rest: Seq<u8>,
    vs: Seq<Lua>,
    ms: Seq<(Lua, Lua)>,
    is_array: bool, dec: spec_fn(u64) -> Option<Seq<u8>>,
) -> bool {
    &&& table_state(v, d, i, start, dec)
    &&& entry_count(v) < 2 * EXPONENT_UNIT
    &&& rest == start.skip(table_prefix(v, i, d, dec)->Ok_0.len() as int)
    &&& (v matches Lua::Array(items) ==> is_array && items_eq(decoded_items(items.subrange(0, i)), vs))
    &&& (v matches Lua::Mapping(pairs) ==> is_array == dense_keys(pairs.subrange(0, i)) && items_eq(
        decoded_values(pairs.subrange(0, i)),
        vs,
    ) && pairs_eq(decoded_pairs(pairs.subrange(0, i)), ms))
}

proof fn lemma_table_start(v: Lua, d: int, start: Seq<u8>, dec: spec_fn(u64) -> Option<Seq<u8>>)
    requires
        text_encodable(v),
        v is Array || v is Mapping,
        ace(v, d, dec) is Ok,
        start.len() > table_body(v, d, dec).len() + 2,
        start.take(table_body(v, d, dec).len() + 2int) == table_body(v, d, dec) + marker(0x74),
        start[table_body(v, d, dec).len() + 2int] == 0x5e,
    ensures
        table_inv(v, d, 0, start, start, Seq::<Lua>::empty(), Seq::<(Lua, Lua)>::empty(), true, dec),
{
    reveal(table_inv);
    reveal(table_state);
    assert(table_prefix(v, 0, d, dec) == Ok::<Seq<u8>, CodecError>(seq![]));
    assert(start.skip(0) == start);
    assert(table_body(v, d, dec).take(0) == Seq::<u8>::empty());
    match v {
        Lua::Array(items) => {
            assert(items.subrange(0, 0) == Seq::<Lua>::empty());
        },
        Lua::Mapping(pairs) => {
            assert(pairs.subrange(0, 0) == Seq::<(Lua, Lua)>::empty());
            assert(dense_keys(pairs.subrange(0, 0)));
        },
        _ => {},
    }
}

proof fn lemma_table_result(
    v: Lua,
    d: int,
    i: int,
    start: Seq<u8>,
    rest: Seq<u8>,
    vs: Seq<Lua>,
    ms: Seq<(Lua, Lua)>,
    is_array: bool,
    dec: spec_fn(u64) -> Option<Seq<u8>>,
)
    requires
        table_inv(v, d, i, start, rest, vs, ms, is_array, dec),
        i == entry_count(v),
    ensures
        is_array ==> lua_eq(decoded(v), Lua::Array(vs)),
        !is_array ==> lua_eq(decoded(v), Lua::Mapping(ms)),
{
    reveal(table_inv);
    reveal(table_state);
    match v {
        Lua::Array(items) => {
            assert(items.subrange(0, i) == items);
        },
        Lua::Mapping(pairs) => {
            assert(pairs.subrange(0, i) == pairs);
        },
        _ => {},
    }
}

proof fn lemma_follow(r: Seq<u8>, b: Seq<u8>, k: int)
    requires
        r.len() > b.len(),
        r.take(b.len() as int) == b,
        r[b.len() as int] == 0x5e,
        0 <= k <= b.len(),
    ensures
        r.skip(k).len() > b.len() - k,
        r.skip(k).take(b.len() - k) == b.skip(k),
        r.skip(k)[b.len() - k] == 0x5e,
{
    assert forall|j: int| 0 <= j < b.len() - k implies r.skip(k).take(b.len() - k)[j] == b.skip(k)[j] by {
        assert(r[k + j] == r.take(b.len() as int)[k + j]);
    }
    assert(r.skip(k).take(b.len() - k) == b.skip(k));
}

proof fn lemma_skip_skip(r: Seq<u8>, a: int, c: int)
    requires
        0 <= a,
        0 <= c,
        a + c <= r.len(),
    ensures
        r.skip(a).skip(c) == r.skip(a + c),
{
    assert(r.skip(a).skip(c) == r.skip(a + c));
}

/// Where `r` starts with `all`, and `p` is a prefix of `all`, what follows
/// the first `q` bytes of `r` starts with the rest of `p`.
proof fn lemma_window(r: Seq<u8>, all: Seq<u8>, p: Seq<u8>, q: int)
    requires
        all.len() <= r.len(),
        r.take(all.len() as int) == all,
        p.len() <= all.len(),
        all.take(p.len() as int) == p,
        0 <= q <= p.len(),
    ensures
        r.skip(q).take(p.len() - q) == p.skip(q),
{
    assert forall|j: int| 0 <= j < p.len() - q implies r.skip(q).take(p.len() - q)[j] == p.skip(
        q,
    )[j] by {
        assert(r[q + j] == r.take(all.len() as int)[q + j]);
        assert(all[q + j] == all.take(p.len() as int)[q + j]);
    }
    assert(r.skip(q).take(p.len() - q) == p.skip(q));
}

} // verus!
