//! Writes a value tree in the text format.
use vstd::prelude::*;

use super::{
    ace, ace_encoding, ace_items, ace_pairs, decimal, escape, escape_byte, lemma_ace_items_err,
    lemma_ace_pairs_err, marker, max_decimal_int, number_token, signed_decimal, MAX_DEPTH,
    decimal_admissible, decimal_choice, decimal_functions,
};
use crate::bytes::{bytes_equal, extend_bytes};
use crate::error::CodecError;
use crate::number::{integer_of_bits, EXPONENT_UNIT, SIGN_BIT};
use crate::value::{
    lemma_key_decreases, lemma_view_pairs, lemma_view_seq, view_pairs, view_seq, Lua, LuaMapKey,
    LuaValue,
};

verus! {

/// Relies on `itoa::Buffer::format`: the decimal digits of an unsigned
/// integer, without sign or leading zeros.
#[verifier::external_body]
fn decimal_digits(v: u64) -> (r: Vec<u8>)
    ensures
        r@ == decimal(v as nat),
{
    let mut buffer = itoa::Buffer::new();
    buffer.format(v).as_bytes().to_vec()
}

/// The decimal that `fmt` gives for `bits`, where it is admissible and
/// `parse` reads it back as `bits`.
fn decimal_for<F: Fn(u64) -> Option<Vec<u8>>, G: Fn(Vec<u8>) -> Option<u64>>(
    fmt: &F,
    parse: &G,
    bits: u64,
) -> (r: Option<Vec<u8>>)
    requires
        decimal_functions(*fmt, *parse),
    ensures
        match r {
            Some(d) => decimal_choice(*fmt, *parse)(bits) == Some(d@),
            None => decimal_choice(*fmt, *parse)(bits) is None,
        },
{
    let t = match fmt(bits) {
        Some(t) => t,
        None => {
            return None;
        },
    };
    if !decimal_ok(&t) {
        return None;
    }
    let mut u: Vec<u8> = Vec::new();
    extend_bytes(&mut u, t.as_slice());
    let ghost uu = u;
    match parse(u) {
        Some(b) => {
            if b == bits {
                proof {
                    assert(exists|t2: Vec<u8>, u2: Vec<u8>|
                        #![trigger fmt.ensures((bits,), Some(t2)), parse.ensures((u2,), Some(bits))]
                        fmt.ensures((bits,), Some(t2)) && decimal_admissible(t2@) && u2@ == t2@
                            && parse.ensures((u2,), Some(bits))) by {
                        assert(parse.ensures((uu,), Some(bits)));
                        assert(fmt.ensures((bits,), Some(t)));
                    }
                    let d = choose|d: Seq<u8>|
                    #![trigger decimal_admissible(d)]
                        exists|t2: Vec<u8>, u2: Vec<u8>|
                            #![trigger fmt.ensures((bits,), Some(t2)), parse.ensures((u2,), Some(bits))]
                            fmt.ensures((bits,), Some(t2)) && t2@ == d && decimal_admissible(d) && u2@
                                == d && parse.ensures((u2,), Some(bits));
                    assert(d == t@);
                }
                Some(t)
            } else {
                None
            }
        },
        None => None,
    }
}

/// `d` is an admissible decimal.
fn decimal_ok(d: &Vec<u8>) -> (r: bool)
    ensures
        r == decimal_admissible(d@),
{
    if d.len() == 0 {
        return false;
    }
    if bytes_equal(d.as_slice(), &[49, 46, 35, 73, 78, 70]) || bytes_equal(
        d.as_slice(),
        &[45, 49, 46, 35, 73, 78, 70],
    ) || bytes_equal(d.as_slice(), &[105, 110, 102]) || bytes_equal(d.as_slice(), &[45, 105, 110, 102]) {
        return false;
    }
    let mut i: usize = 0;
    let mut other = false;
    while i < d.len()
        invariant
            i <= d@.len(),
            forall|j: int| 0 <= j < i ==> #[trigger] d@[j] != 0x5e,
            other == exists|j: int| 0 <= j < i && !(48 <= #[trigger] d@[j] <= 57) && !(j == 0 && d@[j]
                == 45),
        decreases d@.len() - i,
    {
        let c = d[i];
        if c == 0x5e {
            return false;
        }
        if !(48 <= c && c <= 57) && !(i == 0 && c == 45) {
            other = true;
        }
        i = i + 1;
    }
    other
}

/// The writer state: the text so far and the nesting left.
pub struct Serializer {
    remaining_depth: usize,
    result: Vec<u8>,
}

impl Serializer {
    /// The text written so far.
    pub closed spec fn output(&self) -> Seq<u8> {
        self.result@
    }

    /// The nesting left.
    pub closed spec fn depth(&self) -> usize {
        self.remaining_depth
    }

    /// A writer with nothing written and all nesting left.
    pub fn new() -> (r: Serializer)
        ensures
            r.output() == Seq::<u8>::empty(),
            r.depth() == MAX_DEPTH,
    {
        Serializer { remaining_depth: MAX_DEPTH, result: Vec::new() }
    }

    /// The text written.
    pub fn into_bytes(self) -> (r: Vec<u8>)
        ensures
            r@ == self.output(),
    {
        self.result
    }

    /// Writes `value` as a text stream: `^1`, the value, `^^`.
    /// `approximate_len` is a hint for the first allocation.
    pub fn serialize<F: Fn(u64) -> Option<Vec<u8>>, G: Fn(Vec<u8>) -> Option<u64>>(
        value: &LuaValue,
        approximate_len: Option<usize>,
        format_decimal: &F,
        parse_decimal: &G,
    ) -> (r: Result<Vec<u8>, CodecError>)
        requires
            decimal_functions(*format_decimal, *parse_decimal),
        ensures
            match ace_encoding(value@, decimal_choice(*format_decimal, *parse_decimal)) {
                Ok(b) => r is Ok && r->Ok_0@ == b,
                Err(e) => r == Err::<Vec<u8>, CodecError>(e),
            },
    {
        let cap = match approximate_len {
            Some(n) => n,
            None => 1024,
        };
        let mut serializer = Serializer { remaining_depth: MAX_DEPTH, result: Vec::with_capacity(cap) };
        serializer.push_marker(0x31);
        match serializer.serialize_helper(value, format_decimal, parse_decimal) {
            Ok(()) => {},
            Err(e) => {
                return Err(e);
            },
        }
        serializer.push_marker(0x5e);
        Ok(serializer.result)
    }

    fn push_marker(&mut self, c: u8)
        ensures
            final(self).result@ == old(self).result@ + marker(c),
            final(self).remaining_depth == old(self).remaining_depth,
    {
        self.result.push(0x5e);
        self.result.push(c);
    }

    fn push_decimal(&mut self, neg: bool, v: u64)
        ensures
            final(self).result@ == old(self).result@ + signed_decimal(neg, v as nat),
            final(self).remaining_depth == old(self).remaining_depth,
    {
        if neg {
            self.result.push(45);
        }
        let digits = decimal_digits(v);
        extend_bytes(&mut self.result, digits.as_slice());
    }

    fn serialize_helper<F: Fn(u64) -> Option<Vec<u8>>, G: Fn(Vec<u8>) -> Option<u64>>(&mut self, value: &LuaValue, fmt: &F, parse: &G) -> (r: Result<(), CodecError>)
        requires
            decimal_functions(*fmt, *parse),
            old(self).remaining_depth >= 1,
        ensures
            match ace(value@, old(self).remaining_depth as int, decimal_choice(*fmt, *parse)) {
                Ok(b) => {
                    &&& r is Ok
                    &&& final(self).result@ == old(self).result@ + b
                    &&& final(self).remaining_depth == old(self).remaining_depth
                },
                Err(e) => r == Err::<(), CodecError>(e),
            },
        decreases value, 1int,
    {
        match value {
            LuaValue::Null => {
                self.push_marker(0x5a);
                Ok(())
            },
            LuaValue::Boolean(b) => {
                if *b {
                    self.push_marker(0x42);
                } else {
                    self.push_marker(0x62);
                }
                Ok(())
            },
            LuaValue::String(s) => {
                self.push_marker(0x53);
                self.serialize_string(s.as_slice());
                Ok(())
            },
            LuaValue::Number(n) => self.serialize_number(*n, fmt, parse),
            LuaValue::Array(v) => {
                proof {
                    assert(decreases_to!(*value => (*value)->Array_0));
                }
                self.serialize_array(v, fmt, parse)
            },
            LuaValue::Mapping(m) => {
                proof {
                    assert(decreases_to!(*value => (*value)->Mapping_0));
                }
                self.serialize_map(m, fmt, parse)
            },
        }
    }

    fn serialize_number<F: Fn(u64) -> Option<Vec<u8>>, G: Fn(Vec<u8>) -> Option<u64>>(&mut self, bits: u64, fmt: &F, parse: &G) -> (r: Result<(), CodecError>)
        requires
            decimal_functions(*fmt, *parse),
        ensures
            match number_token(bits, decimal_choice(*fmt, *parse)) {
                Ok(b) => {
                    &&& r is Ok
                    &&& final(self).result@ == old(self).result@ + b
                    &&& final(self).remaining_depth == old(self).remaining_depth
                },
                Err(e) => r == Err::<(), CodecError>(e) && final(self).result@ == old(self).result@,
            },
    {
        let e = (bits / EXPONENT_UNIT) % 2048;
        let frac = bits % EXPONENT_UNIT;
        let neg = bits >= SIGN_BIT;
        let ghost start = self.result@;
        if e == 2047 {
            if frac != 0 {
                return Err(CodecError::UnrepresentableNumber);
            }
            self.push_marker(0x4e);
            if neg {
                self.result.push(45);
            }
            self.result.push(49);
            self.result.push(46);
            self.result.push(35);
            self.result.push(73);
            self.result.push(78);
            self.result.push(70);
            return Ok(());
        }
        match integer_of_bits(bits) {
            Some(v) => {
                if -9007199254740992 < v && v < 9007199254740992 && !(v == 0 && neg) {
                    self.push_marker(0x4e);
                    let m: u64 = if v < 0 {
                        (-v) as u64
                    } else {
                        v as u64
                    };
                    self.push_decimal(v < 0, m);
                    return Ok(());
                }
            },
            None => {},
        }
        match decimal_for(fmt, parse, bits) {
            Some(d) => {
                self.push_marker(0x4e);
                extend_bytes(&mut self.result, d.as_slice());
                return Ok(());
            },
            None => {},
        }
        let mantissa: u64 = if e == 0 {
            2 * frac
        } else {
            frac + EXPONENT_UNIT
        };
        self.push_marker(0x46);
        self.push_decimal(neg, mantissa);
        self.push_marker(0x66);
        // The exponent `e - 1075`, with its sign.
        if e < 1075 {
            let x: u64 = if e == 0 {
                1075
            } else {
                1075 - e
            };
            self.push_decimal(true, x);
        } else {
            self.push_decimal(false, e - 1075);
        }
        Ok(())
    }

    /// Writes the escaped bytes of `value`.
    pub fn serialize_string(&mut self, value: &[u8])
        ensures
            final(self).output() == old(self).output() + escape(value@),
            final(self).depth() == old(self).depth(),
    {
        let ghost start = self.result@;
        let mut i: usize = 0;
        while i < value.len()
            invariant
                i <= value@.len(),
                self.result@ == start + escape(value@.subrange(0, i as int)),
                self.remaining_depth == old(self).remaining_depth,
            decreases value@.len() - i,
        {
            let b = value[i];
            let ghost before = self.result@;
            if b <= 0x1d || b == 0x1f || b == 0x20 {
                self.result.push(0x7e);
                self.result.push(b + 64);
            } else if b == 0x1e {
                self.result.push(0x7e);
                self.result.push(0x7a);
            } else if b == 0x5e {
                self.result.push(0x7e);
                self.result.push(0x7d);
            } else if b == 0x7e {
                self.result.push(0x7e);
                self.result.push(0x7c);
            } else if b == 0x7f {
                self.result.push(0x7e);
                self.result.push(0x7b);
            } else {
                self.result.push(b);
            }
            assert(self.result@ == before + escape_byte(b));
            assert(value@.subrange(0, i + 1).drop_last() == value@.subrange(0, i as int));
            i = i + 1;
        }
        assert(value@.subrange(0, i as int) == value@);
    }

    fn serialize_array<F: Fn(u64) -> Option<Vec<u8>>, G: Fn(Vec<u8>) -> Option<u64>>(&mut self, slice: &Vec<LuaValue>, fmt: &F, parse: &G) -> (r: Result<(), CodecError>)
        requires
            decimal_functions(*fmt, *parse),
            old(self).remaining_depth >= 1,
        ensures
            match ace(Lua::Array(view_seq(slice@)), old(self).remaining_depth as int, decimal_choice(*fmt, *parse)) {
                Ok(b) => {
                    &&& r is Ok
                    &&& final(self).result@ == old(self).result@ + b
                    &&& final(self).remaining_depth == old(self).remaining_depth
                },
                Err(e) => r == Err::<(), CodecError>(e),
            },
        decreases slice, 0int,
    {
        let ghost items = view_seq(slice@);
        proof {
            lemma_view_seq(slice@);
        }
        self.push_marker(0x54);
        let ghost start = self.result@;
        let ghost depth = self.remaining_depth as int;
        let mut i: usize = 0;
        while i < slice.len()
            invariant
                decimal_functions(*fmt, *parse),
                items == view_seq(slice@),
                items.len() == slice@.len(),
                forall|j: int| 0 <= j < slice@.len() ==> #[trigger] items[j] == slice@[j].view(),
                i <= slice@.len(),
                self.remaining_depth == depth,
                depth == old(self).remaining_depth,
                depth >= 1,
                start == old(self).result@ + marker(0x54),
                ace_items(items.subrange(0, i as int), depth, decimal_choice(*fmt, *parse)) matches Ok(b) && self.result@ == start
                    + b,
            decreases slice@.len() - i,
        {
            assert(items.subrange(0, i + 1).drop_last() == items.subrange(0, i as int));
            assert(items.subrange(0, i + 1).last() == items[i as int]);
            if self.remaining_depth <= 1 {
                proof {
                    lemma_ace_items_err(items, i + 1, depth, decimal_choice(*fmt, *parse));
                }
                return Err(CodecError::RecursionLimit);
            }
            let ghost before = self.result@;
            self.push_marker(0x4e);
            self.push_decimal(false, (i + 1) as u64);
            self.remaining_depth = self.remaining_depth - 1;
            proof {
                assert(decreases_to!(slice => slice[i as int]));
            }
            match self.serialize_helper(&slice[i], fmt, parse) {
                Ok(()) => {},
                Err(e) => {
                    proof {
                        lemma_ace_items_err(items, i + 1, depth, decimal_choice(*fmt, *parse));
                    }
                    return Err(e);
                },
            }
            self.remaining_depth = self.remaining_depth + 1;
            i = i + 1;
        }
        assert(items.subrange(0, i as int) == items);
        self.push_marker(0x74);
        Ok(())
    }

    fn serialize_map<F: Fn(u64) -> Option<Vec<u8>>, G: Fn(Vec<u8>) -> Option<u64>>(&mut self, map: &Vec<(LuaMapKey, LuaValue)>, fmt: &F, parse: &G) -> (r: Result<(), CodecError>)
        requires
            decimal_functions(*fmt, *parse),
            old(self).remaining_depth >= 1,
        ensures
            match ace(Lua::Mapping(view_pairs(map@)), old(self).remaining_depth as int, decimal_choice(*fmt, *parse)) {
                Ok(b) => {
                    &&& r is Ok
                    &&& final(self).result@ == old(self).result@ + b
                    &&& final(self).remaining_depth == old(self).remaining_depth
                },
                Err(e) => r == Err::<(), CodecError>(e),
            },
        decreases map, 0int,
    {
        let ghost pairs = view_pairs(map@);
        proof {
            lemma_view_pairs(map@);
        }
        self.push_marker(0x54);
        let ghost start = self.result@;
        let ghost depth = self.remaining_depth as int;
        let mut i: usize = 0;
        while i < map.len()
            invariant
                decimal_functions(*fmt, *parse),
                pairs == view_pairs(map@),
                pairs.len() == map@.len(),
                forall|j: int|
                    0 <= j < map@.len() ==> #[trigger] pairs[j] == (
                        map@[j].0.value().view(),
                        map@[j].1.view(),
                    ),
                i <= map@.len(),
                self.remaining_depth == depth,
                depth == old(self).remaining_depth,
                depth >= 1,
                start == old(self).result@ + marker(0x54),
                ace_pairs(pairs.subrange(0, i as int), depth, decimal_choice(*fmt, *parse)) matches Ok(b) && self.result@ == start
                    + b,
            decreases map@.len() - i,
        {
            assert(pairs.subrange(0, i + 1).drop_last() == pairs.subrange(0, i as int));
            assert(pairs.subrange(0, i + 1).last() == pairs[i as int]);
            if self.remaining_depth <= 1 {
                proof {
                    lemma_ace_pairs_err(pairs, i + 1, depth, decimal_choice(*fmt, *parse));
                }
                return Err(CodecError::RecursionLimit);
            }
            self.remaining_depth = self.remaining_depth - 1;
            let key = map[i].0.as_value();
            proof {
                assert(decreases_to!(map => map[i as int]));
                assert(decreases_to!(map[i as int] => map[i as int].0));
                assert(decreases_to!(map[i as int] => map[i as int].1));
                lemma_key_decreases(map[i as int].0);
            }
            match self.serialize_helper(key, fmt, parse) {
                Ok(()) => {},
                Err(e) => {
                    proof {
                        lemma_ace_pairs_err(pairs, i + 1, depth, decimal_choice(*fmt, *parse));
                    }
                    return Err(e);
                },
            }
            match self.serialize_helper(&map[i].1, fmt, parse) {
                Ok(()) => {},
                Err(e) => {
                    proof {
                        lemma_ace_pairs_err(pairs, i + 1, depth, decimal_choice(*fmt, *parse));
                    }
                    return Err(e);
                },
            }
            self.remaining_depth = self.remaining_depth + 1;
            i = i + 1;
        }
        assert(pairs.subrange(0, i as int) == pairs);
        self.push_marker(0x74);
        Ok(())
    }
}

} // verus!
