//! Writes a value tree in the binary format.
use vstd::prelude::*;

use super::{
    be_bytes, count_header, lemma_ser_items_err, lemma_ser_pairs_err, embedded, first_index, lib_encoding, number_bytes, ser, ser_items,
    ser_pairs, spec_required_bytes, string_bytes, wide, EMBEDDED_ARRAY, EMBEDDED_MAP,
    EMBEDDED_STR, MAX_DEPTH, MINOR, TAG_ARRAY8, TAG_FALSE, TAG_FLOAT, TAG_INT16_POS,
    TAG_INT24_POS, TAG_INT32_POS, TAG_INT64_POS, TAG_MAP8, TAG_NULL, TAG_STR8, TAG_STRREF8,
    TAG_TRUE,
};
use crate::bytes::{bytes_equal, extend_bytes};
use crate::error::CodecError;
use crate::number::integer_of_bits;
use crate::value::{
    lemma_key_decreases, lemma_view_pairs, lemma_view_seq, view_pairs, view_seq, Lua, LuaMapKey,
    LuaValue,
};

verus! {

/// The number of big-endian bytes that hold `v`: 1, 2, 3, 4 or 7.
pub fn required_bytes(v: u64) -> (r: u8)
    ensures
        r as nat == spec_required_bytes(v as nat),
{
    if v < 256 {
        1
    } else if v < 65_536 {
        2
    } else if v < 16_777_216 {
        3
    } else if v < 4_294_967_296 {
        4
    } else {
        7
    }
}

fn wide_byte(tag: u8) -> (r: u8)
    requires
        tag < 32,
    ensures
        r == wide(tag as int),
{
    assert(tag << 3 == (tag * 8) as u8) by (bit_vector)
        requires
            tag < 32,
    ;
    tag << 3
}

fn push_be(out: &mut Vec<u8>, v: u64, n: usize)
    ensures
        final(out)@ == old(out)@ + be_bytes(v as nat, n as nat),
    decreases n,
{
    if n > 0 {
        push_be(out, v / 256, n - 1);
        out.push((v % 256) as u8);
    }
}

/// The writer state: the bytes so far, the nesting left, and the strings
/// remembered so far in the order they were first written.
pub struct Serializer {
    remaining_depth: usize,
    result: Vec<u8>,
    string_refs: Vec<Vec<u8>>,
}

impl Serializer {
    /// The bytes written so far.
    pub closed spec fn output(&self) -> Seq<u8> {
        self.result@
    }

    /// The nesting left.
    pub closed spec fn depth(&self) -> usize {
        self.remaining_depth
    }

    /// A writer with nothing written, nothing remembered, and all nesting left.
    pub fn new() -> (r: Serializer)
        ensures
            r.output() == Seq::<u8>::empty(),
            r.refs() == Seq::<Seq<u8>>::empty(),
            r.depth() == MAX_DEPTH,
    {
        let r = Serializer { remaining_depth: MAX_DEPTH, result: Vec::new(), string_refs: Vec::new() };
        assert(r.refs() == Seq::<Seq<u8>>::empty());
        r
    }

    /// The bytes written.
    pub fn into_bytes(self) -> (r: Vec<u8>)
        ensures
            r@ == self.output(),
    {
        self.result
    }

    /// The remembered strings.
    pub closed spec fn refs(&self) -> Seq<Seq<u8>> {
        self.string_refs@.map_values(|v: Vec<u8>| v@)
    }

    /// Writes `value` as a binary stream: the minor version, then the element.
    /// `approximate_len` is a hint for the first allocation.
    pub fn serialize(value: &LuaValue, approximate_len: Option<usize>) -> (r: Result<
        Vec<u8>,
        CodecError,
    >)
        ensures
            match lib_encoding(value@) {
                Ok(b) => r is Ok && r->Ok_0@ == b,
                Err(e) => r == Err::<Vec<u8>, CodecError>(e),
            },
    {
        let cap = match approximate_len {
            Some(n) => n,
            None => 1024,
        };
        let mut serializer = Serializer {
            remaining_depth: MAX_DEPTH,
            result: Vec::with_capacity(cap),
            string_refs: Vec::new(),
        };
        serializer.result.push(MINOR);
        proof {
            assert(serializer.refs() == Seq::<Seq<u8>>::empty());
        }
        match serializer.serialize_helper(value) {
            Ok(()) => Ok(serializer.result),
            Err(e) => Err(e),
        }
    }

    fn serialize_helper(&mut self, value: &LuaValue) -> (r: Result<(), CodecError>)
        requires
            old(self).remaining_depth >= 1,
        ensures
            match ser(value@, old(self).remaining_depth as int, old(self).refs()) {
                Ok((b, refs)) => {
                    &&& r is Ok
                    &&& final(self).result@ == old(self).result@ + b
                    &&& final(self).refs() == refs
                    &&& final(self).remaining_depth == old(self).remaining_depth
                },
                Err(e) => r == Err::<(), CodecError>(e),
            },
        decreases value, 1int,
    {
        match value {
            LuaValue::Null => {
                self.result.push(wide_byte(TAG_NULL));
                Ok(())
            },
            LuaValue::Boolean(b) => {
                if *b {
                    self.result.push(wide_byte(TAG_TRUE));
                } else {
                    self.result.push(wide_byte(TAG_FALSE));
                }
                Ok(())
            },
            LuaValue::String(s) => self.serialize_string(s.as_slice()),
            LuaValue::Number(n) => {
                self.serialize_number(*n);
                Ok(())
            },
            LuaValue::Array(v) => {
                proof {
                    assert(decreases_to!(*value => (*value)->Array_0));
                }
                self.serialize_slice(v)
            },
            LuaValue::Mapping(m) => {
                proof {
                    assert(decreases_to!(*value => (*value)->Mapping_0));
                }
                self.serialize_map(m)
            },
        }
    }

    fn serialize_number(&mut self, bits: u64)
        ensures
            final(self).result@ == old(self).result@ + number_bytes(bits),
            final(self).refs() == old(self).refs(),
            final(self).remaining_depth == old(self).remaining_depth,
    {
        match integer_of_bits(bits) {
            None => {
                self.result.push(wide_byte(TAG_FLOAT));
                push_be(&mut self.result, bits, 8);
            },
            Some(value) => {
                if value >= 0 && value < 128 {
                    self.result.push(((value as u8) << 1) | 1);
                    assert(((value as u8) << 1) | 1 == (2 * value + 1) as u8) by (bit_vector)
                        requires
                            0 <= value < 128,
                    ;
                } else if value > -4096 && value < 4096 {
                    let (m, neg_bit): (u16, u16) = if value < 0 {
                        ((-value) as u16, 8)
                    } else {
                        (value as u16, 0)
                    };
                    let w: u16 = m * 16 + neg_bit + 4;
                    self.result.push((w % 256) as u8);
                    self.result.push((w / 256) as u8);
                } else {
                    let (m, neg): (u64, u8) = if value < 0 {
                        ((-value) as u64, 1)
                    } else {
                        (value as u64, 0)
                    };
                    let n = required_bytes(m);
                    if n == 2 {
                        self.result.push(wide_byte(TAG_INT16_POS + neg));
                    } else if n == 3 {
                        self.result.push(wide_byte(TAG_INT24_POS + neg));
                    } else if n == 4 {
                        self.result.push(wide_byte(TAG_INT32_POS + neg));
                    } else {
                        self.result.push(wide_byte(TAG_INT64_POS + neg));
                    }
                    self.serialize_int(m, n as usize);
                }
            },
        }
    }

    /// Appends the last `len` bytes of `value`, big-endian.
    pub fn serialize_int(&mut self, value: u64, len: usize)
        ensures
            final(self).output() == old(self).output() + be_bytes(value as nat, len as nat),
            final(self).refs() == old(self).refs(),
            final(self).depth() == old(self).depth(),
    {
        push_be(&mut self.result, value, len);
    }

    /// Writes a wide element of tag `tag8 + n - 1` followed by `value` in `n`
    /// big-endian bytes, where `n` is the number of bytes `value` needs, and
    /// that is at most three.
    fn serialize_sized(&mut self, value: u64, tag8: u8, too_large: CodecError) -> (r: Result<
        (),
        CodecError,
    >)
        requires
            tag8 <= 29,
        ensures
            if spec_required_bytes(value as nat) <= 3 {
                &&& r is Ok
                &&& final(self).result@ == old(self).result@ + (seq![
                    wide(tag8 + spec_required_bytes(value as nat) - 1),
                ] + be_bytes(value as nat, spec_required_bytes(value as nat)))
                &&& final(self).refs() == old(self).refs()
                &&& final(self).remaining_depth == old(self).remaining_depth
            } else {
                r == Err::<(), CodecError>(too_large) && final(self).result@ == old(self).result@
                    && final(self).refs() == old(self).refs()
            },
    {
        let n = required_bytes(value);
        if n > 3 {
            return Err(too_large);
        }
        let ghost start = self.result@;
        self.result.push(wide_byte(tag8 + n - 1));
        self.serialize_int(value, n as usize);
        assert(self.result@ == start + (seq![wide(tag8 + n - 1)] + be_bytes(value as nat, n as nat)));
        Ok(())
    }

    /// Writes the header of a string or table of `len` items.
    fn serialize_count(&mut self, len: usize, etag: u8, tag8: u8, too_large: CodecError) -> (r:
        Result<(), CodecError>)
        requires
            etag < 4,
            tag8 <= 29,
        ensures
            match count_header(len as nat, etag as int, tag8 as int, too_large) {
                Ok(h) => {
                    &&& r is Ok
                    &&& final(self).result@ == old(self).result@ + h
                    &&& final(self).refs() == old(self).refs()
                    &&& final(self).remaining_depth == old(self).remaining_depth
                },
                Err(e) => r == Err::<(), CodecError>(e) && final(self).result@ == old(self).result@
                    && final(self).refs() == old(self).refs(),
            },
    {
        if len < 16 {
            self.result.push(((len as u8) << 4) | (etag << 2) | 2);
            assert(((len as u8) << 4) | (etag << 2) | 2 == (len * 16 + etag * 4 + 2) as u8)
                by (bit_vector)
                requires
                    len < 16,
                    etag < 4,
            ;
            Ok(())
        } else {
            self.serialize_sized(len as u64, tag8, too_large)
        }
    }

    fn find_ref(&self, s: &[u8]) -> (r: Option<usize>)
        ensures
            match r {
                Some(i) => first_index(self.refs(), s@) == Some(i as nat),
                None => first_index(self.refs(), s@) is None,
            },
    {
        let mut i: usize = 0;
        while i < self.string_refs.len()
            invariant
                i <= self.string_refs@.len(),
                first_index(self.refs().subrange(0, i as int), s@) is None,
            decreases self.string_refs@.len() - i,
        {
            let found = bytes_equal(self.string_refs[i].as_slice(), s);
            assert(self.refs().subrange(0, i + 1).drop_last() == self.refs().subrange(0, i as int));
            if found {
                proof {
                    lemma_first_index_prefix(self.refs(), s@, (i + 1) as nat);
                }
                return Some(i);
            }
            i = i + 1;
        }
        assert(self.refs().subrange(0, i as int) == self.refs());
        None
    }

    /// Writes the string `value`, or a reference to it where it was written
    /// before.
    pub fn serialize_string(&mut self, value: &[u8]) -> (r: Result<(), CodecError>)
        ensures
            match string_bytes(value@, old(self).refs()) {
                Ok((b, refs)) => {
                    &&& r is Ok
                    &&& final(self).output() == old(self).output() + b
                    &&& final(self).refs() == refs
                    &&& final(self).depth() == old(self).depth()
                },
                Err(e) => {
                    &&& r == Err::<(), CodecError>(e)
                    &&& final(self).output() == old(self).output()
                    &&& final(self).refs() == old(self).refs()
                },
            },
    {
        match self.find_ref(value) {
            Some(i) => {
                if i >= 0xff_ffff {
                    return Err(CodecError::TooLarge);
                }
                let r = self.serialize_sized((i + 1) as u64, TAG_STRREF8, CodecError::TooLarge);
                assert(first_index(old(self).refs(), value@) == Some(i as nat));
                assert(((i + 1) as u64) as nat == i as nat + 1);
                r
            },
            None => {
                let len = value.len();
                match self.serialize_count(len, EMBEDDED_STR, TAG_STR8, CodecError::StringTooLarge) {
                    Ok(()) => {},
                    Err(e) => {
                        return Err(e);
                    },
                }
                if len > 2 {
                    let mut owned: Vec<u8> = Vec::with_capacity(len);
                    extend_bytes(&mut owned, value);
                    self.string_refs.push(owned);
                    assert(self.refs() == old(self).refs().push(value@));
                }
                let ghost mid = self.result@;
                extend_bytes(&mut self.result, value);
                proof {
                    let h = count_header(
                        value@.len(),
                        EMBEDDED_STR as int,
                        TAG_STR8 as int,
                        CodecError::StringTooLarge,
                    )->Ok_0;
                    assert(mid == old(self).result@ + h);
                    assert(self.result@ == old(self).result@ + (h + value@));
                }
                Ok(())
            },
        }
    }

    fn serialize_slice(&mut self, slice: &Vec<LuaValue>) -> (r: Result<(), CodecError>)
        requires
            old(self).remaining_depth >= 1,
        ensures
            match ser(
                Lua::Array(view_seq(slice@)),
                old(self).remaining_depth as int,
                old(self).refs(),
            ) {
                Ok((b, refs)) => {
                    &&& r is Ok
                    &&& final(self).result@ == old(self).result@ + b
                    &&& final(self).refs() == refs
                    &&& final(self).remaining_depth == old(self).remaining_depth
                },
                Err(e) => r == Err::<(), CodecError>(e),
            },
        decreases slice, 0int,
    {
        let ghost items = view_seq(slice@);
        proof {
            lemma_view_seq(slice@);
        }
        match self.serialize_count(slice.len(), EMBEDDED_ARRAY, TAG_ARRAY8, CodecError::TooLarge) {
            Ok(()) => {},
            Err(e) => {
                return Err(e);
            },
        }
        let ghost start = self.result@;
        let ghost refs0 = self.refs();
        let ghost depth = self.remaining_depth as int;
        let ghost hdr = count_header(
            items.len(),
            EMBEDDED_ARRAY as int,
            TAG_ARRAY8 as int,
            CodecError::TooLarge,
        )->Ok_0;
        let mut i: usize = 0;
        while i < slice.len()
            invariant
                count_header(items.len(), EMBEDDED_ARRAY as int, TAG_ARRAY8 as int, CodecError::TooLarge)
                    == Ok::<Seq<u8>, CodecError>(hdr),
                start == old(self).result@ + hdr,
                refs0 == old(self).refs(),
                depth == old(self).remaining_depth,
                items == view_seq(slice@),
                items.len() == slice@.len(),
                forall|j: int| 0 <= j < slice@.len() ==> #[trigger] items[j] == slice@[j].view(),
                i <= slice@.len(),
                self.remaining_depth == depth,
                depth >= 1,
                ser_items(items.subrange(0, i as int), depth, refs0) matches Ok((b, refs)) && self.result@
                    == start + b && self.refs() == refs,
            decreases slice@.len() - i,
        {
            assert(items.subrange(0, i + 1).drop_last() == items.subrange(0, i as int));
            assert(items.subrange(0, i + 1).last() == items[i as int]);
            if self.remaining_depth <= 1 {
                proof {
                    lemma_ser_items_err(items, i + 1, depth, refs0);
                }
                return Err(CodecError::RecursionLimit);
            }
            self.remaining_depth = self.remaining_depth - 1;
            proof {
                assert(decreases_to!(slice => slice[i as int]));
            }
            match self.serialize_helper(&slice[i]) {
                Ok(()) => {},
                Err(e) => {
                    proof {
                        lemma_ser_items_err(items, i + 1, depth, refs0);
                    }
                    return Err(e);
                },
            }
            self.remaining_depth = self.remaining_depth + 1;
            i = i + 1;
        }
        assert(items.subrange(0, i as int) == items);
        Ok(())
    }

    fn serialize_map(&mut self, map: &Vec<(LuaMapKey, LuaValue)>) -> (r: Result<(), CodecError>)
        requires
            old(self).remaining_depth >= 1,
        ensures
            match ser(
                Lua::Mapping(view_pairs(map@)),
                old(self).remaining_depth as int,
                old(self).refs(),
            ) {
                Ok((b, refs)) => {
                    &&& r is Ok
                    &&& final(self).result@ == old(self).result@ + b
                    &&& final(self).refs() == refs
                    &&& final(self).remaining_depth == old(self).remaining_depth
                },
                Err(e) => r == Err::<(), CodecError>(e),
            },
        decreases map, 0int,
    {
        let ghost pairs = view_pairs(map@);
        proof {
            lemma_view_pairs(map@);
        }
        match self.serialize_count(map.len(), EMBEDDED_MAP, TAG_MAP8, CodecError::TooLarge) {
            Ok(()) => {},
            Err(e) => {
                return Err(e);
            },
        }
        let ghost start = self.result@;
        let ghost refs0 = self.refs();
        let ghost depth = self.remaining_depth as int;
        let ghost hdr = count_header(
            pairs.len(),
            EMBEDDED_MAP as int,
            TAG_MAP8 as int,
            CodecError::TooLarge,
        )->Ok_0;
        let mut i: usize = 0;
        while i < map.len()
            invariant
                count_header(pairs.len(), EMBEDDED_MAP as int, TAG_MAP8 as int, CodecError::TooLarge)
                    == Ok::<Seq<u8>, CodecError>(hdr),
                start == old(self).result@ + hdr,
                refs0 == old(self).refs(),
                depth == old(self).remaining_depth,
                pairs == view_pairs(map@),
                pairs.len() == map@.len(),
                forall|j: int|
                    0 <= j < map@.len() ==> #[trigger] pairs[j] == (
                        map@[j].0.value().view(),
                        map@[j].1.view(),
                    ),
                i <= map@.len(),
                self.remaining_depth == depth,
                depth >= 1,
                ser_pairs(pairs.subrange(0, i as int), depth, refs0) matches Ok((b, refs)) && self.result@
                    == start + b && self.refs() == refs,
            decreases map@.len() - i,
        {
            assert(pairs.subrange(0, i + 1).drop_last() == pairs.subrange(0, i as int));
            assert(pairs.subrange(0, i + 1).last() == pairs[i as int]);
            if self.remaining_depth <= 1 {
                proof {
                    lemma_ser_pairs_err(pairs, i + 1, depth, refs0);
                }
                return Err(CodecError::RecursionLimit);
            }
            self.remaining_depth = self.remaining_depth - 1;
            let key = map[i].0.as_value();
            proof {
                assert(decreases_to!(map => map[i as int]));
                assert(decreases_to!(map[i as int] => map[i as int].0));
                assert(decreases_to!(map[i as int] => map[i as int].1));
                lemma_key_decreases(map[i as int].0);
            }
            match self.serialize_helper(key) {
                Ok(()) => {},
                Err(e) => {
                    proof {
                        lemma_ser_pairs_err(pairs, i + 1, depth, refs0);
                    }
                    return Err(e);
                },
            }
            match self.serialize_helper(&map[i].1) {
                Ok(()) => {},
                Err(e) => {
                    proof {
                        lemma_ser_pairs_err(pairs, i + 1, depth, refs0);
                    }
                    return Err(e);
                },
            }
            self.remaining_depth = self.remaining_depth + 1;
            i = i + 1;
        }
        assert(pairs.subrange(0, i as int) == pairs);
        Ok(())
    }
}

proof fn lemma_first_index_prefix(refs: Seq<Seq<u8>>, s: Seq<u8>, n: nat)
    requires
        0 < n <= refs.len(),
        first_index(refs.subrange(0, n - 1), s) is None,
        refs[n - 1] == s,
    ensures
        first_index(refs, s) == Some((n - 1) as nat),
    decreases refs.len(),
{
    assert(refs.subrange(0, n as int).drop_last() == refs.subrange(0, n - 1));
    assert(first_index(refs.subrange(0, n as int), s) == Some((n - 1) as nat));
    if n < refs.len() {
        assert(refs.drop_last().subrange(0, n as int) == refs.subrange(0, n as int));
        assert(refs.drop_last().subrange(0, n - 1) == refs.subrange(0, n - 1));
        lemma_first_index_prefix(refs.drop_last(), s, n);
    } else {
        assert(refs.subrange(0, n as int) == refs);
    }
}

} // verus!
