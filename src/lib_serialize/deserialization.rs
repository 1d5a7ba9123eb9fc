//! Reads a value tree from the binary format.
use vstd::prelude::*;

use super::{
    lemma_lua_eq_trans, lemma_ser_injective, lib_encoding, be_bytes, be_value, embedded, encodable, first_index, int_width, items_eq, key_eq,
    lemma_be_round_trip, lemma_first_index_found, lemma_items_encodable_index,
    lemma_key_eq_transfer, lemma_pairs_encodable_index, lemma_pairs_eq_index, lemma_pow256_values,
    lemma_ser_items_prefix, lemma_ser_pairs_prefix, lemma_short_forms, lemma_wide_forms, lua_eq,
    magnitude, pairs_encodable, pairs_eq, items_encodable, pow256, ser, ser_items, ser_pairs,
    small_integer, wide, EMBEDDED_ARRAY, EMBEDDED_MAP, EMBEDDED_MIXED, EMBEDDED_STR, MAX_DEPTH, MINOR, TAG_ARRAY16,
    TAG_ARRAY24, TAG_ARRAY8, TAG_FALSE, TAG_FLOAT, TAG_FLOATSTR_NEG, TAG_FLOATSTR_POS,
    TAG_INT16_NEG, TAG_INT16_POS, TAG_INT24_NEG, TAG_INT24_POS, TAG_INT32_NEG, TAG_INT32_POS,
    TAG_INT64_NEG, TAG_INT64_POS, TAG_MAP16, TAG_MAP24, TAG_MAP8, TAG_MAPREF16, TAG_MAPREF24,
    TAG_MAPREF8, TAG_MIXED16, TAG_MIXED24, TAG_MIXED8, TAG_NULL, TAG_STR16, TAG_STR24, TAG_STR8,
    TAG_STRREF16, TAG_STRREF24, TAG_STRREF8, TAG_TRUE,
};
use crate::ace_serialize::dense_keys;
use crate::bytes::extend_bytes;
use crate::error::CodecError;
use crate::number::{
    bits_of_integer, exponent_field, fraction_field, integral_magnitude, integral_value, sign_set,
    EXPONENT_UNIT, SIGN_BIT,
};
use crate::value::{
    insert_pair, lemma_view_pairs, key_position, lemma_key_position_some, map_insert, view_pairs, view_seq, Lua, LuaMapKey,
    LuaValue,
};

verus! {

/// The reader state over a binary stream: the position, the nesting left,
/// and the strings and tables read so far, for references.
///
/// `parse_decimal` turns the decimal text of a `FloatStr` element into the
/// bit pattern of the double it denotes, or `None` where it is no number.
pub struct Deserializer<'s, F> {
    remaining_depth: usize,
    data: &'s [u8],
    pos: usize,
    table_refs: Vec<LuaValue>,
    string_refs: Vec<Vec<u8>>,
    parse_decimal: F,
}

impl<'s, F: Fn(Vec<u8>) -> Option<u64>> Deserializer<'s, F> {
    /// The state is usable: the position is within the stream and the
    /// decimal parser takes every text.
    pub closed spec fn wf(&self) -> bool {
        &&& self.pos <= self.data@.len()
        &&& forall|t: Vec<u8>| #[trigger] self.parse_decimal.requires((t,))
    }

    /// `self` reads the same stream as `other`, with the same parser and
    /// nesting left.
    pub closed spec fn same_frame(&self, other: &Self) -> bool {
        &&& self.data == other.data
        &&& self.parse_decimal == other.parse_decimal
        &&& self.remaining_depth == other.remaining_depth
        &&& self.wf()
    }

    /// The nesting left.
    pub closed spec fn depth(&self) -> usize {
        self.remaining_depth
    }

    /// The tables read so far that later references may name, each at the
    /// place its opening tag reserved.
    pub closed spec fn trefs(&self) -> Seq<Lua> {
        self.table_refs@.map_values(|t: LuaValue| t@)
    }

    /// The strings read so far that later references may name.
    pub closed spec fn srefs(&self) -> Seq<Seq<u8>> {
        self.string_refs@.map_values(|v: Vec<u8>| v@)
    }

    /// The bytes not read yet.
    pub closed spec fn rest(&self) -> Seq<u8> {
        self.data@.subrange(self.pos as int, self.data@.len() as int)
    }

    pub fn from_slice(v: &'s [u8], parse_decimal: F) -> (r: Self)
        requires
            forall|t: Vec<u8>| #[trigger] parse_decimal.requires((t,)),
        ensures
            r.wf(),
            r.rest() == v@,
            r.depth() == MAX_DEPTH,
            r.srefs() == Seq::<Seq<u8>>::empty(),
            r.trefs() == Seq::<Lua>::empty(),
    {
        let r = Deserializer {
            remaining_depth: MAX_DEPTH,
            data: v,
            pos: 0,
            table_refs: Vec::new(),
            string_refs: Vec::new(),
            parse_decimal,
        };
        assert(r.rest() == v@);
        assert(r.srefs() == Seq::<Seq<u8>>::empty());
        assert(r.trefs() == Seq::<Lua>::empty());
        r
    }

    fn read_version(&mut self) -> (r: Result<(), CodecError>)
        requires
            old(self).wf(),
        ensures
            final(self).same_frame(old(self)),
            final(self).string_refs == old(self).string_refs,
            final(self).table_refs == old(self).table_refs,
            match r {
                Ok(()) => old(self).rest().len() > 0 && old(self).rest()[0] == MINOR
                    && final(self).rest() == old(self).rest().drop_first(),
                Err(e) => e == CodecError::UnsupportedVersion && (old(self).rest().len() == 0
                    || old(self).rest()[0] != MINOR),
            },
    {
        match self.read_u8() {
            Some(b) => {
                if b == MINOR {
                    Ok(())
                } else {
                    Err(CodecError::UnsupportedVersion)
                }
            },
            None => Err(CodecError::UnsupportedVersion),
        }
    }

    /// Reads every value of the stream, after the version byte. A stream
    /// that is the binary encoding of one encodable value reads as that one
    /// value, by value.
    pub fn deserialize(self) -> (r: Result<Vec<LuaValue>, CodecError>)
        requires
            self.wf(),
            self.depth() >= 1,
        ensures
            r matches Err(CodecError::UnsupportedVersion) <==> (self.rest().len() == 0
                || self.rest()[0] != MINOR),
            forall|v: Lua|
                encodable(v) && #[trigger] lib_encoding(v) == Ok::<Seq<u8>, CodecError>(self.rest())
                    && self.depth() == MAX_DEPTH && self.srefs() == Seq::<Seq<u8>>::empty() ==> (
                r matches Ok(list) && list@.len() == 1 && lua_eq(v, list@[0]@)),
    {
        let ghost has = exists|v: Lua|
            encodable(v) && #[trigger] lib_encoding(v) == Ok::<Seq<u8>, CodecError>(self.rest())
                && self.depth() == MAX_DEPTH && self.srefs() == Seq::<Seq<u8>>::empty();
        let ghost w = choose|v: Lua|
            encodable(v) && #[trigger] lib_encoding(v) == Ok::<Seq<u8>, CodecError>(self.rest())
                && self.depth() == MAX_DEPTH && self.srefs() == Seq::<Seq<u8>>::empty();
        let ghost bw = ser(w, MAX_DEPTH as int, Seq::<Seq<u8>>::empty())->Ok_0.0;
        let mut this = self;
        proof {
            if has {
                assert(self.rest() == seq![MINOR] + bw);
                assert(self.rest()[0] == MINOR);
            }
        }
        match this.read_version() {
            Ok(()) => {},
            Err(e) => {
                return Err(e);
            },
        }
        proof {
            if has {
                assert(this.rest() == bw);
                assert(bw.skip(0) == bw);
                assert(this.rest().take(bw.len() as int) == bw);
            }
        }
        let mut result: Vec<LuaValue> = Vec::new();
        let mut count: usize = 0;
        loop
            invariant
                this.wf(),
                this.remaining_depth >= 1,
                self.rest().len() > 0 && self.rest()[0] == MINOR,
                count == result@.len(),
                count <= this.pos,
                has == (exists|v: Lua|
                    encodable(v) && #[trigger] lib_encoding(v) == Ok::<Seq<u8>, CodecError>(self.rest())
                        && self.depth() == MAX_DEPTH && self.srefs() == Seq::<Seq<u8>>::empty()),
                has ==> encodable(w) && lib_encoding(w) == Ok::<Seq<u8>, CodecError>(self.rest())
                    && bw == ser(w, MAX_DEPTH as int, Seq::<Seq<u8>>::empty())->Ok_0.0,
                has ==> (count == 0 ==> this.rest() == bw && this.srefs() == Seq::<Seq<u8>>::empty()
                    && this.remaining_depth == MAX_DEPTH) && (count >= 1 ==> count == 1
                    && this.rest().len() == 0 && lua_eq(w, result@[0]@)),
            decreases this.data@.len() - this.pos,
        {
            let before = this.pos;
            let ghost g = if count == 0 {
                w
            } else {
                Lua::Null
            };
            proof {
                if has && count == 0 {
                    assert(bw.skip(0) == bw);
                    assert(this.rest().take(bw.len() as int) == bw);
                    assert(this.expects(w, 0));
                }
            }
            match this.deserialize_helper(Ghost(g)) {
                Ok(Some(v)) => {
                    proof {
                        if has {
                            assert(count == 0);
                            assert(bw.skip(bw.len() as int).len() == 0);
                            assert(this.rest().len() == 0);
                        }
                    }
                    result.push(v);
                    count = count + 1;
                },
                Ok(None) => {
                    proof {
                        if has {
                            assert forall|v: Lua|
                                encodable(v) && #[trigger] lib_encoding(v) == Ok::<Seq<u8>, CodecError>(
                                    self.rest(),
                                ) && self.depth() == MAX_DEPTH && self.srefs()
                                    == Seq::<Seq<u8>>::empty() implies lua_eq(v, result@[0]@) by {
                                let bv = ser(v, MAX_DEPTH as int, Seq::<Seq<u8>>::empty())->Ok_0.0;
                                assert(bv == (seq![MINOR] + bv).skip(1));
                                assert(bw == (seq![MINOR] + bw).skip(1));
                                assert(bv + Seq::<u8>::empty() == bv);
                                assert(bw + Seq::<u8>::empty() == bw);
                                lemma_ser_injective(
                                    v,
                                    w,
                                    MAX_DEPTH as int,
                                    Seq::<Seq<u8>>::empty(),
                                    Seq::<u8>::empty(),
                                    Seq::<u8>::empty(),
                                );
                                lemma_lua_eq_trans(v, w, result@[0]@);
                            }
                        }
                    }
                    return Ok(result);
                },
                Err(e) => {
                    return Err(e);
                },
            }
            if this.pos <= before {
                return Ok(result);
            }
        }
    }

    /// Reads the first value of the stream, after the version byte; `None`
    /// where the stream holds no value. A stream that is the binary encoding
    /// of an encodable value reads back as that value, by value.
    pub fn deserialize_first(self) -> (r: Result<Option<LuaValue>, CodecError>)
        requires
            self.wf(),
            self.depth() >= 1,
        ensures
            r matches Err(CodecError::UnsupportedVersion) <==> (self.rest().len() == 0
                || self.rest()[0] != MINOR),
            self.rest() == seq![MINOR] ==> r matches Ok(None),
            forall|v: Lua|
                encodable(v) && #[trigger] lib_encoding(v) == Ok::<Seq<u8>, CodecError>(self.rest())
                    && self.depth() == MAX_DEPTH && self.srefs() == Seq::<Seq<u8>>::empty() ==> (
                r matches Ok(Some(x)) && lua_eq(v, x@)),
            self.rest().len() >= 2 && self.rest()[0] == MINOR && self.rest()[1] % 8 == 0
                && TAG_STRREF8 <= self.rest()[1] / 8 <= TAG_STRREF24 ==> ref_outcome_some(
                r,
                self.rest().skip(2),
                self.rest()[1] / 8 - TAG_STRREF8 + 1,
                string_values(self.srefs()),
            ),
            self.rest().len() >= 2 && self.rest()[0] == MINOR && self.rest()[1] % 8 == 0
                && TAG_MAPREF8 <= self.rest()[1] / 8 <= TAG_MAPREF24 ==> ref_outcome_some(
                r,
                self.rest().skip(2),
                self.rest()[1] / 8 - TAG_MAPREF8 + 1,
                self.trefs(),
            ),
    {
        let ghost has = exists|v: Lua|
            encodable(v) && #[trigger] lib_encoding(v) == Ok::<Seq<u8>, CodecError>(self.rest())
                && self.depth() == MAX_DEPTH && self.srefs() == Seq::<Seq<u8>>::empty();
        let ghost w = choose|v: Lua|
            encodable(v) && #[trigger] lib_encoding(v) == Ok::<Seq<u8>, CodecError>(self.rest())
                && self.depth() == MAX_DEPTH && self.srefs() == Seq::<Seq<u8>>::empty();
        let ghost bw = ser(w, MAX_DEPTH as int, Seq::<Seq<u8>>::empty())->Ok_0.0;
        let mut this = self;
        proof {
            if has {
                assert(self.rest() == seq![MINOR] + bw);
                assert(self.rest()[0] == MINOR);
            }
        }
        match this.read_version() {
            Ok(()) => {},
            Err(e) => {
                return Err(e);
            },
        }
        proof {
            if has {
                assert(this.rest() == bw);
                assert(this.srefs() == Seq::<Seq<u8>>::empty());
                assert(bw.skip(0) == bw);
                assert(this.rest().take(bw.len() as int) == bw);
                assert(this.expects(w, 0));
            }
        }
        proof {
            assert(this.rest() == self.rest().drop_first());
            if self.rest().len() >= 2 {
                assert(this.rest().drop_first() == self.rest().skip(2));
                assert(this.rest()[0] == self.rest()[1]);
            }
        }
        let r = this.deserialize_helper(Ghost(w));
        proof {
            assert forall|v: Lua|
                encodable(v) && #[trigger] lib_encoding(v) == Ok::<Seq<u8>, CodecError>(self.rest())
                    && self.depth() == MAX_DEPTH && self.srefs() == Seq::<Seq<u8>>::empty() implies (
                r matches Ok(Some(x)) && lua_eq(v, x@)) by {
                assert(has);
                let bv = ser(v, MAX_DEPTH as int, Seq::<Seq<u8>>::empty())->Ok_0.0;
                assert(seq![MINOR] + bv == seq![MINOR] + bw);
                assert(bv == (seq![MINOR] + bv).skip(1));
                assert(bw == (seq![MINOR] + bw).skip(1));
                assert(bv + Seq::<u8>::empty() == bv);
                assert(bw + Seq::<u8>::empty() == bw);
                lemma_ser_injective(
                    v,
                    w,
                    MAX_DEPTH as int,
                    Seq::<Seq<u8>>::empty(),
                    Seq::<u8>::empty(),
                    Seq::<u8>::empty(),
                );
                lemma_lua_eq_trans(v, w, r->Ok_0->Some_0@);
            }
        }
        r
    }

    fn read_u8(&mut self) -> (r: Option<u8>)
        requires
            old(self).wf(),
        ensures
            final(self).same_frame(old(self)),
            final(self).table_refs == old(self).table_refs,
            final(self).string_refs == old(self).string_refs,
            match r {
                Some(b) => old(self).rest().len() > 0 && b == old(self).rest()[0]
                    && final(self).rest() == old(self).rest().drop_first() && final(self).pos
                    == old(self).pos + 1,
                None => old(self).rest().len() == 0 && final(self).pos == old(self).pos,
            },
    {
        if self.pos < self.data.len() {
            let b = self.data[self.pos];
            self.pos = self.pos + 1;
            assert(self.rest() == old(self).rest().drop_first());
            Some(b)
        } else {
            None
        }
    }

    /// Reads `n` bytes as a big-endian unsigned number.
    fn read_int(&mut self, n: usize) -> (r: Option<u64>)
        requires
            old(self).wf(),
            n <= 8,
        ensures
            final(self).same_frame(old(self)),
            final(self).table_refs == old(self).table_refs,
            final(self).string_refs == old(self).string_refs,
            final(self).pos >= old(self).pos,
            r is None <==> old(self).rest().len() < n,
            r matches Some(v) ==> v < pow256(n as nat) && (n <= 3 ==> v < 0x100_0000) && v
                == be_value(old(self).rest().take(n as int)) && final(self).rest() == old(self).rest().skip(n as int),
    {
        if self.data.len() - self.pos < n {
            return None;
        }
        let mut v: u64 = 0;
        let mut k: usize = 0;
        while k < n
            invariant
                self.same_frame(old(self)),
                self.table_refs == old(self).table_refs,
                self.string_refs == old(self).string_refs,
                k <= n <= 8,
                self.pos == old(self).pos + k,
                self.data@.len() - old(self).pos >= n,
                v < pow256(k as nat),
                v == be_value(old(self).rest().take(k as int)),
            decreases n - k,
        {
            assert(old(self).rest().take(k + 1).drop_last() == old(self).rest().take(k as int));
            let b = self.data[self.pos];
            self.pos = self.pos + 1;
            proof {
                assert(pow256((k + 1) as nat) == 256 * pow256(k as nat));
                assert(v * 256 + b < pow256((k + 1) as nat)) by (nonlinear_arith)
                    requires
                        v < pow256(k as nat),
                        b < 256,
                        pow256((k + 1) as nat) == 256 * pow256(k as nat),
                ;
                lemma_pow256_bound((k + 1) as nat);
            }
            v = v * 256 + b as u64;
            k = k + 1;
        }
        assert(self.rest() == old(self).rest().skip(n as int));
        proof {
            if n <= 3 {
                lemma_pow256_mono(n as nat, 3);
                assert(pow256(3) == 0x100_0000) by {
        reveal_with_fuel(pow256, 4);
    }
            }
        }
        Some(v)
    }

    /// Reads `n` bytes.
    fn read_bytes(&mut self, n: usize) -> (r: Option<Vec<u8>>)
        requires
            old(self).wf(),
        ensures
            final(self).same_frame(old(self)),
            final(self).table_refs == old(self).table_refs,
            final(self).string_refs == old(self).string_refs,
            final(self).pos >= old(self).pos,
            match r {
                Some(b) => old(self).rest().len() >= n && b@ == old(self).rest().subrange(
                    0,
                    n as int,
                ) && final(self).rest() == old(self).rest().skip(n as int),
                None => old(self).rest().len() < n,
            },
    {
        if self.data.len() - self.pos < n {
            return None;
        }
        let mut out: Vec<u8> = Vec::with_capacity(n);
        let start = self.pos;
        let end = self.pos + n;
        extend_bytes(&mut out, &self.data[start..end]);
        self.pos = end;
        assert(out@ == old(self).rest().subrange(0, n as int));
        assert(self.rest() == old(self).rest().skip(n as int));
        Some(out)
    }

    /// The rest of the stream starts with `b`.
    closed spec fn starts_with(&self, b: Seq<u8>) -> bool {
        b.len() <= self.rest().len() && self.rest().take(b.len() as int) == b
    }

    /// The encoding of `v` at this nesting, with the strings read so far.
    closed spec fn enc(&self, v: Lua) -> Result<(Seq<u8>, Seq<Seq<u8>>), CodecError> {
        ser(v, self.remaining_depth as int, self.srefs())
    }

    /// The encoding of `v` comes next, but for its first `k` bytes.
    closed spec fn expects(&self, v: Lua, k: int) -> bool {
        &&& encodable(v)
        &&& self.enc(v) is Ok
        &&& 0 <= k <= self.enc(v)->Ok_0.0.len()
        &&& self.starts_with(self.enc(v)->Ok_0.0.skip(k))
    }

    /// `self` is past the encoding of `v`, of which `old` had read `k` bytes.
    closed spec fn past(&self, old: &Self, v: Lua, k: int) -> bool {
        &&& self.rest() == old.rest().skip(old.enc(v)->Ok_0.0.len() - k)
        &&& self.srefs() == old.enc(v)->Ok_0.1
    }

    /// The encoding of the items `items` comes next.
    closed spec fn expects_items(&self, items: Seq<Lua>) -> bool {
        &&& items_encodable(items)
        &&& ser_items(items, self.remaining_depth as int, self.srefs()) is Ok
        &&& self.starts_with(ser_items(items, self.remaining_depth as int, self.srefs())->Ok_0.0)
    }

    /// The encoding of the pairs `pairs` comes next.
    closed spec fn expects_pairs(&self, pairs: Seq<(Lua, Lua)>) -> bool {
        &&& pairs_encodable(pairs)
        &&& ser_pairs(pairs, self.remaining_depth as int, self.srefs()) is Ok
        &&& self.starts_with(ser_pairs(pairs, self.remaining_depth as int, self.srefs())->Ok_0.0)
    }

    /// Reads the next element; `None` at the end of the stream. Where the
    /// encoding of `expected` comes next, the element read is `expected` by
    /// value.
    #[verifier::spinoff_prover]
    #[verifier::rlimit(100)]
    fn deserialize_helper(&mut self, Ghost(expected): Ghost<Lua>) -> (r: Result<
        Option<LuaValue>,
        CodecError,
    >)
        requires
            old(self).wf(),
            old(self).remaining_depth >= 1,
        ensures
            final(self).same_frame(old(self)),
            final(self).pos >= old(self).pos,
            r matches Ok(None) <==> old(self).rest().len() == 0,
            r matches Ok(Some(_)) ==> final(self).pos > old(self).pos,
            r != Err::<Option<LuaValue>, CodecError>(CodecError::UnsupportedVersion),
            old(self).expects(expected, 0) ==> (r matches Ok(Some(x)) && lua_eq(expected, x@)
                && final(self).past(old(self), expected, 0)),
            old(self).rest().len() > 0 && old(self).rest()[0] % 8 == 0 && TAG_STRREF8 <= old(self).rest()[0] / 8 <= TAG_STRREF24 ==> ref_outcome_some(
                r,
                old(self).rest().drop_first(),
                old(self).rest()[0] / 8 - TAG_STRREF8 + 1,
                string_values(old(self).srefs()),
            ),
            old(self).rest().len() > 0 && old(self).rest()[0] % 8 == 0 && TAG_MAPREF8 <= old(self).rest()[0] / 8 <= TAG_MAPREF24 ==> ref_outcome_some(
                r,
                old(self).rest().drop_first(),
                old(self).rest()[0] / 8 - TAG_MAPREF8 + 1,
                old(self).trefs(),
            ),
        decreases old(self).remaining_depth, 5int,
    {
        let ghost e = self.expects(expected, 0);
        let ghost b = self.enc(expected)->Ok_0.0;
        let ghost r2 = self.enc(expected)->Ok_0.1;
        proof {
            if e {
                lemma_short_forms(expected, self.remaining_depth as int, self.srefs());
                assert(b.skip(0) == b);
                assert(self.rest()[0] == b[0]);
            }
        }
        let value = match self.read_u8() {
            None => {
                return Ok(None);
            },
            Some(b) => b,
        };
        proof {
            if e {
                lemma_after_first(old(self).rest(), b);
                assert(self.starts_with(b.skip(1)));
                assert(self.expects(expected, 1));
            }
        }
        if value % 2 == 1 {
            // `NNNN NNN1`: a 7-bit non-negative integer.
            let bits = bits_of_integer(false, (value / 2) as u64);
            proof {
                if e {
                    assert(b.len() == 1);
                    assert(old(self).rest().skip(1) == old(self).rest().skip(b.len() - 0));
                }
            }
            Ok(Some(LuaValue::Number(bits)))
        } else if value % 4 == 2 {
            // `CCCC TT10`: a 2-bit type and a 4-bit count.
            let tag = (value % 16) / 4;
            let len = value / 16;
            assert(value == embedded(tag as int, len as int));
            match self.deserialize_embedded(tag, len, Ghost(expected)) {
                Ok(v) => {
                    proof {
                        if e {
                            lemma_skip_skip(old(self).rest(), 1, b.len() - 1);
                        }
                    }
                    Ok(Some(v))
                },
                Err(e) => Err(e),
            }
        } else if value % 8 == 4 {
            // `NNNN S100`: the low four bits of a 12-bit integer and its sign,
            // then a byte with the upper bits.
            let ghost mid = *self;
            let next = match self.read_u8() {
                None => {
                    return Err(CodecError::TruncatedInput);
                },
                Some(b) => b,
            };
            let packed: u64 = next as u64 * 256 + value as u64;
            let neg = value % 16 == 12;
            let bits = bits_of_integer(neg, packed / 16);
            proof {
                if e {
                    let x = small_integer(expected->Number_0)->Some_0;
                    let w = 16 * magnitude(x) + (if x < 0 { 8int } else { 0int }) + 4;
                    assert(b.len() == 2);
                    assert(mid.rest()[0] == b[1]);
                    assert(next == (w / 256) as u8);
                    assert(value == (w % 256) as u8);
                    assert(packed == w);
                    assert(packed / 16 == magnitude(x));
                    assert(neg == (x < 0));
                    lemma_skip_skip(old(self).rest(), 1, 1);
                }
            }
            Ok(Some(LuaValue::Number(bits)))
        } else {
            // `TTTT T000`: a 5-bit type tag.
            proof {
                if e {
                    assert(value == wide((value / 8) as int));
                }
            }
            match self.deserialize_one(value / 8, Ghost(expected)) {
                Ok(v) => {
                    proof {
                        if e {
                            lemma_skip_skip(old(self).rest(), 1, b.len() - 1);
                        }
                    }
                    Ok(Some(v))
                },
                Err(e) => Err(e),
            }
        }
    }

    fn extract_value(&mut self, Ghost(expected): Ghost<Lua>) -> (r: Result<LuaValue, CodecError>)
        requires
            old(self).wf(),
            old(self).remaining_depth >= 1,
        ensures
            final(self).same_frame(old(self)),
            final(self).pos >= old(self).pos,
            r != Err::<LuaValue, CodecError>(CodecError::UnsupportedVersion),
            old(self).expects(expected, 0) ==> (r matches Ok(x) && lua_eq(expected, x@) && final(self).past(old(self), expected, 0)),
        decreases old(self).remaining_depth, 6int,
    {
        match self.deserialize_helper(Ghost(expected)) {
            Ok(Some(value)) => Ok(value),
            Ok(None) => Err(CodecError::TruncatedInput),
            Err(e) => Err(e),
        }
    }

    fn deserialize_embedded(&mut self, tag: u8, len: u8, Ghost(expected): Ghost<Lua>) -> (r:
        Result<LuaValue, CodecError>)
        requires
            old(self).wf(),
            old(self).remaining_depth >= 1,
            tag < 4,
            len < 16,
        ensures
            final(self).same_frame(old(self)),
            final(self).pos >= old(self).pos,
            r != Err::<LuaValue, CodecError>(CodecError::UnsupportedVersion),
            old(self).expects(expected, 1) && old(self).enc(expected)->Ok_0.0[0] == embedded(
                tag as int,
                len as int,
            ) ==> (r matches Ok(x) && lua_eq(expected, x@) && final(self).past(
                old(self),
                expected,
                1,
            )),
        decreases old(self).remaining_depth, 4int,
    {
        let ghost e = self.expects(expected, 1) && self.enc(expected)->Ok_0.0[0] == embedded(
            tag as int,
            len as int,
        );
        let ghost b = self.enc(expected)->Ok_0.0;
        proof {
            if e {
                lemma_short_forms(expected, self.remaining_depth as int, self.srefs());
            }
        }
        if tag == EMBEDDED_STR {
            let r = self.deserialize_string(len as usize);
            proof {
                if e {
                    let t = expected->Str_0;
                    assert(b.skip(1) == t);
                }
            }
            r
        } else if tag == EMBEDDED_MAP {
            let r = self.deserialize_map(len as usize, Ghost(
                match expected {
                    Lua::Mapping(pairs) => pairs,
                    _ => Seq::empty(),
                },
            ));
            r
        } else if tag == EMBEDDED_ARRAY {
            let r = self.deserialize_array(len as usize, Ghost(
                match expected {
                    Lua::Array(items) => items,
                    _ => Seq::empty(),
                },
            ));
            r
        } else {
            // Two 2-bit counts, each one less than the true count.
            self.deserialize_mixed(((len % 4) + 1) as usize, ((len / 4) + 1) as usize)
        }
    }

    fn read_len(&mut self, n: usize) -> (r: Result<usize, CodecError>)
        requires
            old(self).wf(),
            1 <= n <= 3,
        ensures
            final(self).same_frame(old(self)),
            final(self).table_refs == old(self).table_refs,
            final(self).string_refs == old(self).string_refs,
            final(self).pos >= old(self).pos,
            r matches Err(e) ==> e == CodecError::TruncatedInput,
            r is Err <==> old(self).rest().len() < n,
            r matches Ok(v) ==> v == be_value(old(self).rest().take(n as int)) && final(self).rest()
                == old(self).rest().skip(n as int),
    {
        match self.read_int(n) {
            None => Err(CodecError::TruncatedInput),
            Some(v) => Ok(v as usize),
        }
    }

    fn deserialize_string_ref(&mut self, n: usize) -> (r: Result<LuaValue, CodecError>)
        requires
            old(self).wf(),
            1 <= n <= 3,
        ensures
            final(self).same_frame(old(self)),
            final(self).pos >= old(self).pos,
            final(self).string_refs == old(self).string_refs,
            r != Err::<LuaValue, CodecError>(CodecError::UnsupportedVersion),
            ({
                let index = be_value(old(self).rest().take(n as int));
                old(self).rest().len() >= n && 1 <= index <= old(self).srefs().len() ==> (r matches Ok(
                    x,
                ) && x@ == Lua::Str(old(self).srefs()[index - 1]) && final(self).rest() == old(self).rest().skip(n as int))
            }),
            ({
                let index = be_value(old(self).rest().take(n as int));
                old(self).rest().len() >= n && !(1 <= index <= old(self).srefs().len()) ==> r
                    == Err::<LuaValue, CodecError>(CodecError::InvalidReference)
            }),
            old(self).rest().len() < n ==> r == Err::<LuaValue, CodecError>(CodecError::TruncatedInput),
    {
        let index = match self.read_len(n) {
            Ok(i) => i,
            Err(e) => {
                return Err(e);
            },
        };
        if index == 0 || index > self.string_refs.len() {
            return Err(CodecError::InvalidReference);
        }
        let mut s: Vec<u8> = Vec::new();
        extend_bytes(&mut s, self.string_refs[index - 1].as_slice());
        assert(s@ == self.srefs()[index - 1]);
        Ok(LuaValue::String(s))
    }

    fn deserialize_table_ref(&mut self, n: usize) -> (r: Result<LuaValue, CodecError>)
        requires
            old(self).wf(),
            1 <= n <= 3,
        ensures
            final(self).same_frame(old(self)),
            final(self).pos >= old(self).pos,
            r != Err::<LuaValue, CodecError>(CodecError::UnsupportedVersion),
            ({
                let index = be_value(old(self).rest().take(n as int));
                old(self).rest().len() >= n ==> if 1 <= index <= old(self).trefs().len() {
                    r matches Ok(v) && v@ == old(self).trefs()[index - 1]
                } else {
                    r == Err::<LuaValue, CodecError>(CodecError::InvalidReference)
                }
            }),
            old(self).rest().len() < n ==> r == Err::<LuaValue, CodecError>(CodecError::TruncatedInput),
    {
        let index = match self.read_len(n) {
            Ok(i) => i,
            Err(e) => {
                return Err(e);
            },
        };
        if index == 0 || index > self.table_refs.len() {
            return Err(CodecError::InvalidReference);
        }
        Ok(self.table_refs[index - 1].deep_clone())
    }

    fn deserialize_float_str(&mut self, neg: bool) -> (r: Result<LuaValue, CodecError>)
        requires
            old(self).wf(),
        ensures
            final(self).same_frame(old(self)),
            final(self).pos >= old(self).pos,
            r != Err::<LuaValue, CodecError>(CodecError::UnsupportedVersion),
            r matches Ok(x) ==> exists|text: Vec<u8>, bits: u64|
                #[trigger] old(self).parse_decimal.ensures((text,), Some(bits)) && old(self).rest().len()
                    > 0 && text@ == old(self).rest().subrange(1, 1 + old(self).rest()[0] as int)
                    && x@ == Lua::Number(
                    if neg {
                        bits ^ SIGN_BIT
                    } else {
                        bits
                    },
                ),
    {
        let len = match self.read_u8() {
            None => {
                return Err(CodecError::TruncatedInput);
            },
            Some(b) => b,
        };
        let text = match self.read_bytes(len as usize) {
            None => {
                return Err(CodecError::TruncatedInput);
            },
            Some(t) => t,
        };
        let ghost t = text;
        let parsed = (self.parse_decimal)(text);
        proof {
            assert(t@ == old(self).rest().subrange(1, 1 + old(self).rest()[0] as int));
        }
        match parsed {
            None => Err(CodecError::InvalidToken),
            Some(bits) => Ok(
                LuaValue::Number(
                    if neg {
                        bits ^ SIGN_BIT
                    } else {
                        bits
                    },
                ),
            ),
        }
    }

    fn deserialize_wide_int(&mut self, n: usize, neg: bool) -> (r: Result<LuaValue, CodecError>)
        requires
            old(self).wf(),
            n == 2 || n == 3 || n == 4 || n == 7,
        ensures
            final(self).same_frame(old(self)),
            final(self).pos >= old(self).pos,
            final(self).string_refs == old(self).string_refs,
            old(self).rest().len() >= n && be_value(old(self).rest().take(n as int)) < 2
                * EXPONENT_UNIT ==> (r matches Ok(x) && x@ matches Lua::Number(bits)
                && integral_magnitude(bits) == Some(be_value(old(self).rest().take(n as int)))
                && sign_set(bits) == neg && final(self).rest() == old(self).rest().skip(n as int)),
            old(self).rest().len() >= n ==> (r matches Ok(x) && x@ matches Lua::Number(bits)
                && final(self).rest() == old(self).rest().skip(n as int) && forall|b: u64|
                #[trigger] integral_magnitude(b) == Some(be_value(old(self).rest().take(n as int)))
                    && sign_set(b) == neg && be_value(old(self).rest().take(n as int)) >= 2
                    * EXPONENT_UNIT ==> bits == b),
            r != Err::<LuaValue, CodecError>(CodecError::UnsupportedVersion),
    {
        match self.read_int(n) {
            None => Err(CodecError::TruncatedInput),
            Some(v) => {
                proof {
                    lemma_int_fits(n as nat, v);
                }
                Ok(LuaValue::Number(bits_of_integer(neg, v)))
            },
        }
    }

    #[verifier::spinoff_prover]
    #[verifier::rlimit(100)]
    fn deserialize_one(&mut self, tag: u8, Ghost(expected): Ghost<Lua>) -> (r: Result<
        LuaValue,
        CodecError,
    >)
        requires
            old(self).wf(),
            old(self).remaining_depth >= 1,
            tag < 32,
        ensures
            final(self).same_frame(old(self)),
            final(self).pos >= old(self).pos,
            r != Err::<LuaValue, CodecError>(CodecError::UnsupportedVersion),
            old(self).expects(expected, 1) && old(self).enc(expected)->Ok_0.0[0] == wide(tag as int)
                ==> (r matches Ok(x) && lua_eq(expected, x@) && final(self).past(
                old(self),
                expected,
                1,
            )),
            TAG_STRREF8 <= tag <= TAG_STRREF24 ==> ref_outcome(
                r,
                old(self).rest(),
                tag - TAG_STRREF8 + 1,
                string_values(old(self).srefs()),
            ),
            TAG_MAPREF8 <= tag <= TAG_MAPREF24 ==> ref_outcome(
                r,
                old(self).rest(),
                tag - TAG_MAPREF8 + 1,
                old(self).trefs(),
            ),
        decreases old(self).remaining_depth, 4int,
    {
        let ghost e = self.expects(expected, 1) && self.enc(expected)->Ok_0.0[0] == wide(tag as int);
        let ghost b = self.enc(expected)->Ok_0.0;
        let ghost start = self.rest();
        proof {
            if e {
                assert(b[0] % 8 == 0);
                lemma_wide_forms(expected, self.remaining_depth as int, self.srefs());
                lemma_pow256_values();
                assert(b[0] / 8 == tag);
            }
        }
        if tag == TAG_NULL {
            proof {
                if e {
                    assert(self.rest().skip(0) == self.rest());
                }
            }
            Ok(LuaValue::Null)
        } else if tag == TAG_INT16_POS || tag == TAG_INT16_NEG || tag == TAG_INT24_POS || tag
            == TAG_INT24_NEG || tag == TAG_INT32_POS || tag == TAG_INT32_NEG || tag == TAG_INT64_POS
            || tag == TAG_INT64_NEG {
            let n: usize = if tag <= TAG_INT16_NEG {
                2
            } else if tag <= TAG_INT24_NEG {
                3
            } else if tag <= TAG_INT32_NEG {
                4
            } else {
                7
            };
            let neg = tag % 2 == 0;
            proof {
                if e {
                    let x = small_integer(expected->Number_0)->Some_0;
                    assert(n == int_width(tag as int));
                    assert(b.skip(1) == be_bytes(magnitude(x), n as nat));
                    lemma_be_round_trip(magnitude(x), n as nat);
                    assert(self.rest().take(n as int) == b.skip(1));
                }
            }
            let r = self.deserialize_wide_int(n, neg);
            assert(e ==> r is Ok);
            r
        } else if tag == TAG_FLOAT {
            proof {
                if e {
                    let orig = expected->Number_0;
                    lemma_be_round_trip(orig as nat, 8);
                    assert(b.skip(1) == be_bytes(orig as nat, 8));
                }
            }
            match self.read_int(8) {
                None => Err(CodecError::TruncatedInput),
                Some(bits) => {
                    proof {
                        if e {
                            let orig = expected->Number_0;
                            assert(b.skip(1) == be_bytes(orig as nat, 8));
                            lemma_be_round_trip(orig as nat, 8);
                            assert(start.take(8) == b.skip(1));
                        }
                    }
                    Ok(LuaValue::Number(bits))
                },
            }
        } else if tag == TAG_FLOATSTR_POS || tag == TAG_FLOATSTR_NEG {
            self.deserialize_float_str(tag == TAG_FLOATSTR_NEG)
        } else if tag == TAG_TRUE {
            proof {
                if e {
                    assert(self.rest().skip(0) == self.rest());
                }
            }
            Ok(LuaValue::Boolean(true))
        } else if tag == TAG_FALSE {
            proof {
                if e {
                    assert(self.rest().skip(0) == self.rest());
                }
            }
            Ok(LuaValue::Boolean(false))
        } else if tag == TAG_STR8 || tag == TAG_STR16 || tag == TAG_STR24 {
            let n = (tag - TAG_STR8 + 1) as usize;
            proof {
                if e {
                    let t = expected->Str_0;
                    lemma_be_round_trip(t.len(), n as nat);
                    assert(b.skip(1) == be_bytes(t.len(), n as nat) + t);
                    assert(start.take(n as int) == be_bytes(t.len(), n as nat));
                }
            }
            match self.read_len(n) {
                Ok(len) => {
                    let ghost mid = self.rest();
                    proof {
                        if e {
                            let t = expected->Str_0;
                            let all = b.skip(1);
                            assert(all.take(all.len() as int) == all);
                            lemma_starts_after(start, all, all, n as int);
                            assert(all.skip(n as int) == t);
                            assert(mid.take(t.len() as int) == t);
                        }
                    }
                    let r = self.deserialize_string(len);
                    assert(e ==> r is Ok);
                    proof {
                        if e {
                            let t = expected->Str_0;
                            lemma_skip_skip(start, n as int, t.len() as int);
                        }
                    }
                    r
                },
                Err(e) => Err(e),
            }
        } else if tag == TAG_MAP8 || tag == TAG_MAP16 || tag == TAG_MAP24 {
            let n = (tag - TAG_MAP8 + 1) as usize;
            let ghost pairs = match expected {
                Lua::Mapping(p) => p,
                _ => Seq::empty(),
            };
            let ghost body = ser_pairs(pairs, self.remaining_depth as int, self.srefs())->Ok_0.0;
            proof {
                if e {
                    lemma_be_round_trip(pairs.len(), n as nat);
                    assert(b.skip(1) == be_bytes(pairs.len(), n as nat) + body);
                    assert(start.take(n as int) == be_bytes(pairs.len(), n as nat));
                }
            }
            match self.read_len(n) {
                Ok(len) => {
                    proof {
                        if e {
                            let all = b.skip(1);
                            assert(all.take(all.len() as int) == all);
                            lemma_starts_after(start, all, all, n as int);
                            assert(all.skip(n as int) == body);
                            assert(self.rest().take(body.len() as int) == body);
                        }
                    }
                    let r = self.deserialize_map(len, Ghost(pairs));
                    assert(e ==> r is Ok);
                    proof {
                        if e {
                            lemma_skip_skip(start, n as int, body.len() as int);
                        }
                    }
                    r
                },
                Err(e) => Err(e),
            }
        } else if tag == TAG_ARRAY8 || tag == TAG_ARRAY16 || tag == TAG_ARRAY24 {
            let n = (tag - TAG_ARRAY8 + 1) as usize;
            let ghost items = match expected {
                Lua::Array(i) => i,
                _ => Seq::empty(),
            };
            let ghost body = ser_items(items, self.remaining_depth as int, self.srefs())->Ok_0.0;
            proof {
                if e {
                    lemma_be_round_trip(items.len(), n as nat);
                    assert(b.skip(1) == be_bytes(items.len(), n as nat) + body);
                    assert(start.take(n as int) == be_bytes(items.len(), n as nat));
                }
            }
            match self.read_len(n) {
                Ok(len) => {
                    proof {
                        if e {
                            let all = b.skip(1);
                            assert(all.take(all.len() as int) == all);
                            lemma_starts_after(start, all, all, n as int);
                            assert(all.skip(n as int) == body);
                            assert(self.rest().take(body.len() as int) == body);
                        }
                    }
                    let r = self.deserialize_array(len, Ghost(items));
                    assert(e ==> r is Ok);
                    proof {
                        if e {
                            lemma_skip_skip(start, n as int, body.len() as int);
                        }
                    }
                    r
                },
                Err(e) => Err(e),
            }
        } else if tag == TAG_MIXED8 || tag == TAG_MIXED16 || tag == TAG_MIXED24 {
            let n = (tag - TAG_MIXED8 + 1) as usize;
            let array_len = match self.read_len(n) {
                Ok(len) => len,
                Err(e) => {
                    return Err(e);
                },
            };
            let map_len = match self.read_len(n) {
                Ok(len) => len,
                Err(e) => {
                    return Err(e);
                },
            };
            self.deserialize_mixed(array_len, map_len)
        } else if tag == TAG_STRREF8 || tag == TAG_STRREF16 || tag == TAG_STRREF24 {
            let n = (tag - TAG_STRREF8 + 1) as usize;
            proof {
                if e {
                    let t = expected->Str_0;
                    let p = first_index(self.srefs(), t)->Some_0;
                    lemma_first_index_found(self.srefs(), t);
                    lemma_be_round_trip(p + 1, n as nat);
                    assert(b.skip(1) == be_bytes(p + 1, n as nat));
                    assert(start.take(n as int) == be_bytes(p + 1, n as nat));
                }
            }
            let r = self.deserialize_string_ref(n);
            assert(e ==> r is Ok);
            r
        } else {
            assert(tag == TAG_MAPREF8 || tag == TAG_MAPREF16 || tag == TAG_MAPREF24);
            self.deserialize_table_ref((tag - TAG_MAPREF8 + 1) as usize)
        }
    }

    fn deserialize_string(&mut self, len: usize) -> (r: Result<LuaValue, CodecError>)
        requires
            old(self).wf(),
        ensures
            final(self).same_frame(old(self)),
            final(self).pos >= old(self).pos,
            final(self).table_refs == old(self).table_refs,
            r != Err::<LuaValue, CodecError>(CodecError::UnsupportedVersion),
            match r {
                Ok(v) => old(self).rest().len() >= len && v@ == Lua::Str(
                    old(self).rest().subrange(0, len as int),
                ) && final(self).rest() == old(self).rest().skip(len as int) && final(self).srefs()
                    == if len > 2 {
                    old(self).srefs().push(old(self).rest().subrange(0, len as int))
                } else {
                    old(self).srefs()
                },
                Err(e) => e == CodecError::TruncatedInput && old(self).rest().len() < len,
            },
    {
        match self.read_bytes(len) {
            None => Err(CodecError::TruncatedInput),
            Some(s) => {
                if len > 2 {
                    let mut copy: Vec<u8> = Vec::with_capacity(len);
                    extend_bytes(&mut copy, s.as_slice());
                    self.string_refs.push(copy);
                    assert(self.srefs() == old(self).srefs().push(s@));
                }
                Ok(LuaValue::String(s))
            },
        }
    }

    /// Opens a table: reserves its place among the tables, in the order of
    /// the opening tags.
    fn open_table(&mut self) -> (slot: usize)
        requires
            old(self).wf(),
        ensures
            final(self).same_frame(old(self)),
            final(self).pos == old(self).pos,
            slot == old(self).table_refs@.len(),
            final(self).table_refs@ == old(self).table_refs@.push(LuaValue::Null),
            final(self).string_refs == old(self).string_refs,
    {
        let slot = self.table_refs.len();
        self.table_refs.push(LuaValue::Null);
        slot
    }

    /// Closes the table opened at `slot` with its value.
    fn close_table(&mut self, slot: usize, table: &LuaValue)
        requires
            old(self).wf(),
        ensures
            final(self).same_frame(old(self)),
            final(self).pos == old(self).pos,
            final(self).string_refs == old(self).string_refs,
    {
        if slot < self.table_refs.len() {
            let copy = table.deep_clone();
            self.table_refs.set(slot, copy);
        }
    }

    /// Reads one key and its value into `m`, one level down.
    fn read_pair(&mut self, m: &mut Vec<(LuaMapKey, LuaValue)>) -> (r: Result<(), CodecError>)
        requires
            old(self).wf(),
            old(self).remaining_depth >= 1,
        ensures
            final(self).same_frame(old(self)),
            final(self).pos >= old(self).pos,
            r != Err::<(), CodecError>(CodecError::UnsupportedVersion),
            r is Ok ==> exists|k: Lua, v: Lua|
                view_pairs(final(m)@) == #[trigger] insert_pair(view_pairs(old(m)@), k, v),
        decreases old(self).remaining_depth, 2int,
    {
        if self.remaining_depth <= 1 {
            return Err(CodecError::RecursionLimit);
        }
        self.remaining_depth = self.remaining_depth - 1;
        let key = match self.extract_value(Ghost(Lua::Null)) {
            Ok(k) => k,
            Err(e) => {
                self.remaining_depth = self.remaining_depth + 1;
                return Err(e);
            },
        };
        let value = match self.extract_value(Ghost(Lua::Null)) {
            Ok(v) => v,
            Err(e) => {
                self.remaining_depth = self.remaining_depth + 1;
                return Err(e);
            },
        };
        self.remaining_depth = self.remaining_depth + 1;
        match LuaMapKey::from_value(key) {
            Ok(k) => {
                let ghost kv = k.value()@;
                let ghost vv = value@;
                map_insert(m, k, value);
                assert(view_pairs(m@) == insert_pair(view_pairs(old(m)@), kv, vv));
                Ok(())
            },
            Err(e) => Err(e),
        }
    }

    fn deserialize_map(&mut self, len: usize, Ghost(pairs): Ghost<Seq<(Lua, Lua)>>) -> (r: Result<
        LuaValue,
        CodecError,
    >)
        requires
            old(self).wf(),
            old(self).remaining_depth >= 1,
        ensures
            final(self).same_frame(old(self)),
            final(self).pos >= old(self).pos,
            r != Err::<LuaValue, CodecError>(CodecError::UnsupportedVersion),
            old(self).expects_pairs(pairs) && pairs.len() == len ==> (r matches Ok(x) && x@ matches Lua::Mapping(
                ys,
            ) && pairs_eq(pairs, ys) && final(self).rest() == old(self).rest().skip(
                ser_pairs(pairs, old(self).remaining_depth as int, old(self).srefs())->Ok_0.0.len() as int,
            ) && final(self).srefs() == ser_pairs(
                pairs,
                old(self).remaining_depth as int,
                old(self).srefs(),
            )->Ok_0.1),
        decreases old(self).remaining_depth, 3int,
    {
        let ghost e = self.expects_pairs(pairs) && pairs.len() == len;
        let ghost d = self.remaining_depth as int;
        let ghost s0 = self.srefs();
        let ghost all = ser_pairs(pairs, d, s0)->Ok_0.0;
        let ghost start = self.rest();
        proof {
            if e {
                lemma_pairs_encodable_index(pairs);
            }
        }
        let slot = self.open_table();
        let mut m: Vec<(LuaMapKey, LuaValue)> = Vec::new();
        let mut i: usize = 0;
        while i < len
            invariant
                self.same_frame(old(self)),
                self.pos >= old(self).pos,
                self.remaining_depth >= 1,
                self.remaining_depth == d,
                i <= len,
                e == (old(self).expects_pairs(pairs) && pairs.len() == len),
                d == old(self).remaining_depth,
                s0 == old(self).srefs(),
                start == old(self).rest(),
                e ==> {
                    &&& pairs.len() == len
                    &&& ser_pairs(pairs, d, s0) is Ok
                    &&& all == ser_pairs(pairs, d, s0)->Ok_0.0
                    &&& all.len() <= start.len()
                    &&& start.take(all.len() as int) == all
                    &&& forall|j: int|
                        0 <= j < pairs.len() ==> {
                            &&& !((#[trigger] pairs[j]).0 is Null)
                            &&& encodable(pairs[j].0)
                            &&& encodable(pairs[j].1)
                            &&& forall|k: int| 0 <= k < j ==> !key_eq(#[trigger] pairs[k].0, pairs[j].0)
                        }
                    &&& ser_pairs(pairs.subrange(0, i as int), d, s0) is Ok
                    &&& self.rest() == start.skip(
                        ser_pairs(pairs.subrange(0, i as int), d, s0)->Ok_0.0.len() as int,
                    )
                    &&& self.srefs() == ser_pairs(pairs.subrange(0, i as int), d, s0)->Ok_0.1
                    &&& pairs_eq(pairs.subrange(0, i as int), view_pairs(m@))
                },
            decreases len - i,
        {
            let ghost bi = ser_pairs(pairs.subrange(0, i as int), d, s0)->Ok_0.0;
            let ghost ri = ser_pairs(pairs.subrange(0, i as int), d, s0)->Ok_0.1;
            let ghost pk = pairs[i as int].0;
            let ghost pv = pairs[i as int].1;
            proof {
                if e {
                    lemma_ser_pairs_prefix(pairs, i + 1, d, s0);
                    assert(pairs.subrange(0, i + 1).drop_last() == pairs.subrange(0, i as int));
                    assert(pairs.subrange(0, i + 1).last() == pairs[i as int]);
                }
            }
            if self.remaining_depth <= 1 {
                return Err(CodecError::RecursionLimit);
            }
            self.remaining_depth = self.remaining_depth - 1;
            proof {
                if e {
                    let c = ser(pk, d - 1, ri)->Ok_0.0;
                    let c2 = ser(pv, d - 1, ser(pk, d - 1, ri)->Ok_0.1)->Ok_0.0;
                    let bn = ser_pairs(pairs.subrange(0, i + 1), d, s0)->Ok_0.0;
                    assert(bn == bi + c + c2);
                    lemma_starts_after(start, all, bn, bi.len() as int);
                    assert(bn.skip(bi.len() as int) == c + c2);
                    assert(self.rest().take(c.len() as int) == c);
                    assert(c.skip(0) == c);
                    assert(self.expects(pk, 0));
                }
            }
            let key = match self.extract_value(Ghost(pk)) {
                Ok(k) => k,
                Err(err) => {
                    self.remaining_depth = self.remaining_depth + 1;
                    return Err(err);
                },
            };
            proof {
                if e {
                    let c = ser(pk, d - 1, ri)->Ok_0.0;
                    let c2 = ser(pv, d - 1, ser(pk, d - 1, ri)->Ok_0.1)->Ok_0.0;
                    lemma_skip_skip(start, bi.len() as int, c.len() as int);
                    let bn = ser_pairs(pairs.subrange(0, i + 1), d, s0)->Ok_0.0;
                    lemma_starts_after(start, all, bn, (bi.len() + c.len()) as int);
                    assert(bn.skip((bi.len() + c.len()) as int) == c2);
                    assert(c2.skip(0) == c2);
                    assert(self.expects(pv, 0));
                }
            }
            let value = match self.extract_value(Ghost(pv)) {
                Ok(v) => v,
                Err(err) => {
                    self.remaining_depth = self.remaining_depth + 1;
                    return Err(err);
                },
            };
            self.remaining_depth = self.remaining_depth + 1;
            proof {
                if e {
                    let c = ser(pk, d - 1, ri)->Ok_0.0;
                    let c2 = ser(pv, d - 1, ser(pk, d - 1, ri)->Ok_0.1)->Ok_0.0;
                    lemma_skip_skip(start, (bi.len() + c.len()) as int, c2.len() as int);
                    assert(key@ != Lua::Null);
                }
            }
            let k = match LuaMapKey::from_value(key) {
                Ok(k) => k,
                Err(err) => {
                    return Err(err);
                },
            };
            let ghost before = view_pairs(m@);
            proof {
                if e {
                    lemma_pairs_eq_index(pairs.subrange(0, i as int), before);
                    lemma_key_position_some(before, k.value()@);
                    if key_position(before, k.value()@) is Some {
                        let j = key_position(before, k.value()@)->Some_0;
                        assert(pairs.subrange(0, i as int)[j as int] == pairs[j as int]);
                        lemma_key_eq_transfer(pairs[j as int].0, before[j as int].0, pk, k.value()@);
                        assert(false);
                    }
                }
            }
            map_insert(&mut m, k, value);
            proof {
                if e {
                    let after = view_pairs(m@);
                    assert(after.drop_last() == before);
                    assert(pairs.subrange(0, i + 1).drop_last() == pairs.subrange(0, i as int));
                }
            }
            i = i + 1;
        }
        proof {
            if e {
                assert(pairs.subrange(0, i as int) == pairs);
            }
        }
        let table = LuaValue::Mapping(m);
        self.close_table(slot, &table);
        Ok(table)
    }

    fn deserialize_array(&mut self, len: usize, Ghost(items): Ghost<Seq<Lua>>) -> (r: Result<
        LuaValue,
        CodecError,
    >)
        requires
            old(self).wf(),
            old(self).remaining_depth >= 1,
        ensures
            final(self).same_frame(old(self)),
            final(self).pos >= old(self).pos,
            r != Err::<LuaValue, CodecError>(CodecError::UnsupportedVersion),
            old(self).expects_items(items) && items.len() == len ==> (r matches Ok(x) && x@ matches Lua::Array(
                ys,
            ) && items_eq(items, ys) && final(self).rest() == old(self).rest().skip(
                ser_items(items, old(self).remaining_depth as int, old(self).srefs())->Ok_0.0.len() as int,
            ) && final(self).srefs() == ser_items(
                items,
                old(self).remaining_depth as int,
                old(self).srefs(),
            )->Ok_0.1),
        decreases old(self).remaining_depth, 3int,
    {
        let ghost e = self.expects_items(items) && items.len() == len;
        let ghost d = self.remaining_depth as int;
        let ghost s0 = self.srefs();
        let ghost all = ser_items(items, d, s0)->Ok_0.0;
        let ghost start = self.rest();
        proof {
            if e {
                lemma_items_encodable_index(items);
            }
        }
        let slot = self.open_table();
        let mut v: Vec<LuaValue> = Vec::new();
        let mut i: usize = 0;
        while i < len
            invariant
                self.same_frame(old(self)),
                self.pos >= old(self).pos,
                self.remaining_depth >= 1,
                self.remaining_depth == d,
                i <= len,
                e == (old(self).expects_items(items) && items.len() == len),
                d == old(self).remaining_depth,
                s0 == old(self).srefs(),
                start == old(self).rest(),
                e ==> {
                    &&& items.len() == len
                    &&& ser_items(items, d, s0) is Ok
                    &&& all == ser_items(items, d, s0)->Ok_0.0
                    &&& all.len() <= start.len()
                    &&& start.take(all.len() as int) == all
                    &&& forall|j: int| 0 <= j < items.len() ==> encodable(#[trigger] items[j])
                    &&& ser_items(items.subrange(0, i as int), d, s0) is Ok
                    &&& self.rest() == start.skip(
                        ser_items(items.subrange(0, i as int), d, s0)->Ok_0.0.len() as int,
                    )
                    &&& self.srefs() == ser_items(items.subrange(0, i as int), d, s0)->Ok_0.1
                    &&& items_eq(items.subrange(0, i as int), view_seq(v@))
                },
            decreases len - i,
        {
            let ghost bi = ser_items(items.subrange(0, i as int), d, s0)->Ok_0.0;
            let ghost ri = ser_items(items.subrange(0, i as int), d, s0)->Ok_0.1;
            let ghost it = items[i as int];
            proof {
                if e {
                    lemma_ser_items_prefix(items, i + 1, d, s0);
                    assert(items.subrange(0, i + 1).drop_last() == items.subrange(0, i as int));
                    assert(items.subrange(0, i + 1).last() == items[i as int]);
                }
            }
            if self.remaining_depth <= 1 {
                return Err(CodecError::RecursionLimit);
            }
            self.remaining_depth = self.remaining_depth - 1;
            proof {
                if e {
                    let c = ser(it, d - 1, ri)->Ok_0.0;
                    let bn = ser_items(items.subrange(0, i + 1), d, s0)->Ok_0.0;
                    assert(bn == bi + c);
                    lemma_starts_after(start, all, bn, bi.len() as int);
                    assert(bn.skip(bi.len() as int) == c);
                    assert(self.rest().take(c.len() as int) == c);
                    assert(c.skip(0) == c);
                    assert(self.expects(it, 0));
                }
            }
            let item = match self.extract_value(Ghost(it)) {
                Ok(x) => x,
                Err(err) => {
                    self.remaining_depth = self.remaining_depth + 1;
                    return Err(err);
                },
            };
            self.remaining_depth = self.remaining_depth + 1;
            proof {
                if e {
                    let c = ser(it, d - 1, ri)->Ok_0.0;
                    lemma_skip_skip(start, bi.len() as int, c.len() as int);
                    assert(v@.push(item).drop_last() == v@);
                    assert(view_seq(v@.push(item)).drop_last() == view_seq(v@));
                }
            }
            v.push(item);
            i = i + 1;
        }
        proof {
            if e {
                assert(items.subrange(0, i as int) == items);
            }
        }
        let table = LuaValue::Array(v);
        self.close_table(slot, &table);
        Ok(table)
    }

    fn deserialize_mixed(&mut self, array_len: usize, map_len: usize) -> (r: Result<
        LuaValue,
        CodecError,
    >)
        requires
            old(self).wf(),
            old(self).remaining_depth >= 1,
        ensures
            final(self).same_frame(old(self)),
            final(self).pos >= old(self).pos,
            r != Err::<LuaValue, CodecError>(CodecError::UnsupportedVersion),
            array_len < 2 * EXPONENT_UNIT ==> (r matches Ok(x) ==> (x@ matches Lua::Mapping(ps)
                && ps.len() >= array_len && dense_keys(ps.subrange(0, array_len as int)) && (map_len
                == 0 ==> ps.len() == array_len))),
        decreases old(self).remaining_depth, 3int,
    {
        let slot = self.open_table();
        let mut m: Vec<(LuaMapKey, LuaValue)> = Vec::new();
        let mut i: usize = 0;
        while i < array_len
            invariant
                self.same_frame(old(self)),
                self.pos >= old(self).pos,
                self.remaining_depth >= 1,
                i <= array_len,
                array_len < 2 * EXPONENT_UNIT ==> view_pairs(m@).len() == i && dense_keys(
                    view_pairs(m@),
                ),
            decreases array_len - i,
        {
            if self.remaining_depth <= 1 {
                return Err(CodecError::RecursionLimit);
            }
            self.remaining_depth = self.remaining_depth - 1;
            let item = match self.extract_value(Ghost(Lua::Null)) {
                Ok(x) => x,
                Err(e) => {
                    self.remaining_depth = self.remaining_depth + 1;
                    return Err(e);
                },
            };
            self.remaining_depth = self.remaining_depth + 1;
            // Keys of the array part are 1, 2, ... in order.
            let index: u64 = if (i as u64) < 0xff_ffff_ffff_ffff {
                i as u64 + 1
            } else {
                0xff_ffff_ffff_ffff
            };
            let kb = bits_of_integer(false, index);
            match LuaMapKey::from_value(LuaValue::Number(kb)) {
                Ok(k) => {
                    let ghost before = view_pairs(m@);
                    proof {
                        if array_len < 2 * EXPONENT_UNIT {
                            lemma_view_pairs(m@);
                            lemma_key_position_some(before, Lua::Number(kb));
                            if key_position(before, Lua::Number(kb)) is Some {
                                let j = key_position(before, Lua::Number(kb))->Some_0;
                                let b = before[j as int].0->Number_0;
                                assert(integral_value(b) == Some(j as int + 1));
                                assert(integral_value(kb) == Some(i + 1));
                                if b % SIGN_BIT == 0 {
                                    assert(exponent_field(b) == 0 && fraction_field(b) == 0);
                                }
                                assert(false);
                            }
                        }
                    }
                    map_insert(&mut m, k, item);
                    proof {
                        if array_len < 2 * EXPONENT_UNIT {
                            let after = view_pairs(m@);
                            assert(after == before.push((Lua::Number(kb), after.last().1)));
                            assert forall|j: int| 0 <= j < after.len() implies ((#[trigger] after[j]).0 matches Lua::Number(
                                b,
                            ) && integral_value(b) == Some(j + 1)) by {
                                if j < before.len() {
                                    assert(after[j] == before[j]);
                                }
                            }
                        }
                    }
                },
                Err(e) => {
                    return Err(e);
                },
            }
            i = i + 1;
        }
        let mut j: usize = 0;
        proof {
            if array_len < 2 * EXPONENT_UNIT {
                assert(view_pairs(m@).subrange(0, array_len as int) == view_pairs(m@));
            }
        }
        while j < map_len
            invariant
                self.same_frame(old(self)),
                self.pos >= old(self).pos,
                self.remaining_depth >= 1,
                j <= map_len,
                array_len < 2 * EXPONENT_UNIT ==> view_pairs(m@).len() >= array_len && dense_keys(
                    view_pairs(m@).subrange(0, array_len as int),
                ) && (j == 0 ==> view_pairs(m@).len() == array_len),
            decreases map_len - j,
        {
            let ghost before = view_pairs(m@);
            match self.read_pair(&mut m) {
                Ok(()) => {},
                Err(e) => {
                    return Err(e);
                },
            }
            proof {
                if array_len < 2 * EXPONENT_UNIT {
                    let (k, v) = choose|k: Lua, v: Lua|
                        view_pairs(m@) == #[trigger] insert_pair(before, k, v);
                    lemma_insert_keeps_prefix(before, k, v, array_len as int);
                    let after = view_pairs(m@);
                    assert forall|q: int| 0 <= q < array_len implies ((#[trigger] after.subrange(
                        0,
                        array_len as int,
                    )[q]).0 matches Lua::Number(b) && integral_value(b) == Some(q + 1)) by {
                        assert(after.subrange(0, array_len as int)[q] == after[q]);
                        assert(before.subrange(0, array_len as int)[q] == before[q]);
                        assert(after[q].0 == before[q].0);
                    }
                }
            }
            j = j + 1;
        }
        let ghost fin = view_pairs(m@);
        proof {
            if array_len < 2 * EXPONENT_UNIT {
                assert(fin.len() >= array_len);
                assert(dense_keys(fin.subrange(0, array_len as int)));
                assert(map_len == 0 ==> j == 0);
            }
        }
        let table = LuaValue::Mapping(m);
        assert(table@ == Lua::Mapping(fin));
        self.close_table(slot, &table);
        Ok(table)
    }
}

/// What a reference of `n` index bytes at the start of `rest` names among
/// `refs`: the entry at the 1-based index, `InvalidReference` for index 0 or
/// past the end, `TruncatedInput` where the index bytes are missing.
pub open spec fn ref_result(rest: Seq<u8>, n: int, refs: Seq<Lua>) -> Result<Lua, CodecError> {
    if rest.len() < n {
        Err(CodecError::TruncatedInput)
    } else if 1 <= be_value(rest.take(n)) <= refs.len() {
        Ok(refs[be_value(rest.take(n)) - 1])
    } else {
        Err(CodecError::InvalidReference)
    }
}

/// `r` is what [`ref_result`] gives, by value.
pub open spec fn ref_outcome(r: Result<LuaValue, CodecError>, rest: Seq<u8>, n: int, refs: Seq<Lua>) -> bool {
    match ref_result(rest, n, refs) {
        Ok(x) => r matches Ok(y) && y@ == x,
        Err(e) => r == Err::<LuaValue, CodecError>(e),
    }
}

/// `r` is the element of what [`ref_result`] gives, by value.
pub open spec fn ref_outcome_some(
    r: Result<Option<LuaValue>, CodecError>,
    rest: Seq<u8>,
    n: int,
    refs: Seq<Lua>,
) -> bool {
    match ref_result(rest, n, refs) {
        Ok(x) => r matches Ok(Some(y)) && y@ == x,
        Err(e) => r == Err::<Option<LuaValue>, CodecError>(e),
    }
}

/// The remembered strings as values.
pub open spec fn string_values(refs: Seq<Seq<u8>>) -> Seq<Lua> {
    refs.map_values(|t: Seq<u8>| Lua::Str(t))
}

proof fn lemma_pow256_bound(k: nat)
    requires
        k <= 8,
    ensures
        pow256(k) <= 0x1_0000_0000_0000_0000,
{
    lemma_pow256_mono(k, 8);
    assert(pow256(8) == 0x1_0000_0000_0000_0000) by {
        reveal_with_fuel(pow256, 9);
    }
}

proof fn lemma_pow256_mono(a: nat, b: nat)
    requires
        a <= b,
    ensures
        pow256(a) <= pow256(b),
    decreases b,
{
    if a < b {
        lemma_pow256_mono(a, (b - 1) as nat);
    }
}

proof fn lemma_int_fits(n: nat, v: u64)
    requires
        n == 2 || n == 3 || n == 4 || n == 7,
        v < pow256(n),
    ensures
        v <= 0xff_ffff_ffff_ffff,
{
    lemma_pow256_mono(n, 7);
    assert(pow256(7) == 0x100_0000_0000_0000) by {
        reveal_with_fuel(pow256, 8);
    }
}

proof fn lemma_after_first(r: Seq<u8>, b: Seq<u8>)
    requires
        1 <= b.len() <= r.len(),
        r.take(b.len() as int) == b,
    ensures
        r.drop_first() == r.skip(1),
        r.skip(1).take(b.len() - 1) == b.skip(1),
{
    assert(r.drop_first() == r.skip(1));
    assert(r.skip(1).take(b.len() - 1) == b.skip(1)) by {
        assert forall|j: int| 0 <= j < b.len() - 1 implies r.skip(1).take(b.len() - 1)[j] == b.skip(
            1,
        )[j] by {
            assert(r[j + 1] == r.take(b.len() as int)[j + 1]);
        }
    }
}

proof fn lemma_skip_skip(r: Seq<u8>, a: int, c: int)
    requires
        0 <= a,
        0 <= c,
        a + c <= r.len(),
    ensures
        r.skip(a).skip(c) == r.skip(a + c),
{
    assert(r.skip(a).skip(c) == r.skip(a + c));
}

/// Where `r` starts with `all`, and `p` is a prefix of `all`, what follows
/// the first `q` bytes of `r` starts with the rest of `p`.
proof fn lemma_starts_after(r: Seq<u8>, all: Seq<u8>, p: Seq<u8>, q: int)
    requires
        all.len() <= r.len(),
        r.take(all.len() as int) == all,
        p.len() <= all.len(),
        all.take(p.len() as int) == p,
        0 <= q <= p.len(),
    ensures
        r.skip(q).take(p.len() - q) == p.skip(q),
{
    assert forall|j: int| 0 <= j < p.len() - q implies r.skip(q).take(p.len() - q)[j] == p.skip(
        q,
    )[j] by {
        assert(r[q + j] == r.take(all.len() as int)[q + j]);
        assert(all[q + j] == all.take(p.len() as int)[q + j]);
    }
    assert(r.skip(q).take(p.len() - q) == p.skip(q));
}

/// Setting a key changes no earlier pair but a value, and drops no pair.
proof fn lemma_insert_keeps_prefix(ps: Seq<(Lua, Lua)>, k: Lua, v: Lua, n: int)
    requires
        0 <= n <= ps.len(),
    ensures
        insert_pair(ps, k, v).len() >= ps.len(),
        forall|q: int| 0 <= q < n ==> #[trigger] insert_pair(ps, k, v)[q].0 == ps[q].0,
        forall|q: int| 0 <= q < n && insert_pair(ps, k, v)[q].1 == ps[q].1 ==> #[trigger] insert_pair(ps, k, v)[q] == ps[q],
{
    lemma_key_position_some(ps, k);
}

} // verus!
