//! The value tree: nil, booleans, numbers, byte strings and tables.
use vstd::prelude::*;

use crate::bytes::bytes_equal;
use crate::error::CodecError;
use crate::number::{exponent_field, fraction_field, EXPONENT_UNIT, SIGN_BIT};

verus! {

/// The mathematical value of a [`LuaValue`]: numbers by their IEEE-754 bits,
/// strings as bytes, arrays and maps as sequences.
pub enum Lua {
    Mapping(Seq<(Lua, Lua)>),
    Array(Seq<Lua>),
    Str(Seq<u8>),
    Number(u64),
    Boolean(bool),
    Null,
}

/// A value of the scripting language.
///
/// A number is held as the bit pattern of its IEEE-754 double. A map is a
/// list of key/value pairs in which no two keys are the same key
/// (see [`same_key`]).
#[derive(Debug, PartialEq)]
pub enum LuaValue {
    Mapping(Vec<(LuaMapKey, LuaValue)>),
    Array(Vec<LuaValue>),
    String(Vec<u8>),
    Number(u64),
    Boolean(bool),
    Null,
}

/// A value that is not `Null`, usable as a map key.
#[derive(Debug, PartialEq)]
pub struct LuaMapKey(LuaValue);

impl LuaMapKey {
    #[verifier::type_invariant]
    spec fn inv(self) -> bool {
        !(self.0 is Null)
    }

    /// The value of the key.
    pub closed spec fn value(self) -> LuaValue {
        self.0
    }

    pub fn as_value(&self) -> (r: &LuaValue)
        ensures
            *r == self.value(),
            !(r is Null),
    {
        proof {
            use_type_invariant(self);
        }
        &self.0
    }

    /// A copy of the key.
    pub fn deep_clone(&self) -> (r: LuaMapKey)
        ensures
            r.value()@ == self.value()@,
        decreases self,
    {
        proof {
            use_type_invariant(self);
        }
        LuaMapKey(self.0.deep_clone())
    }

    /// Makes a key of `value`; `Null` is refused.
    pub fn from_value(value: LuaValue) -> (r: Result<Self, CodecError>)
        ensures
            match r {
                Ok(k) => !(value is Null) && k.value() == value,
                Err(e) => value is Null && e == CodecError::InvalidKey,
            },
    {
        if let LuaValue::Null = value {
            Err(CodecError::InvalidKey)
        } else {
            Ok(LuaMapKey(value))
        }
    }
}

impl LuaValue {
    /// A copy of the whole tree.
    pub fn deep_clone(&self) -> (r: LuaValue)
        ensures
            r@ == self@,
        decreases self,
    {
        match self {
            LuaValue::Mapping(m) => {
                let mut out: Vec<(LuaMapKey, LuaValue)> = Vec::with_capacity(m.len());
                let mut i: usize = 0;
                while i < m.len()
                    invariant
                        *self == LuaValue::Mapping(*m),
                        i <= m@.len(),
                        view_pairs(out@) == view_pairs(m@.subrange(0, i as int)),
                    decreases m@.len() - i,
                {
                    proof {
                        assert(decreases_to!(m => m[i as int]));
                        assert(decreases_to!(m[i as int] => m[i as int].0));
                        assert(decreases_to!(m[i as int] => m[i as int].1));
                        assert(decreases_to!(*self => (*self)->Mapping_0));
                        assert(decreases_to!(*self => m[i as int].0));
                        assert(decreases_to!(*self => m[i as int].1));
                    }
                    let key = m[i].0.deep_clone();
                    let value = m[i].1.deep_clone();
                    assert(view_pairs(m@.subrange(0, i + 1)) == view_pairs(
                        m@.subrange(0, i as int),
                    ).push((m@[i as int].0.value().view(), m@[i as int].1.view()))) by {
                        assert(m@.subrange(0, i + 1).drop_last() == m@.subrange(0, i as int));
                    }
                    assert(view_pairs(out@.push((key, value))) == view_pairs(out@).push(
                        (key.value().view(), value.view()),
                    )) by {
                        assert(out@.push((key, value)).drop_last() == out@);
                    }
                    out.push((key, value));
                    i = i + 1;
                }
                assert(m@.subrange(0, m@.len() as int) == m@);
                LuaValue::Mapping(out)
            },
            LuaValue::Array(v) => {
                let mut out: Vec<LuaValue> = Vec::with_capacity(v.len());
                let mut i: usize = 0;
                while i < v.len()
                    invariant
                        *self == LuaValue::Array(*v),
                        i <= v@.len(),
                        view_seq(out@) == view_seq(v@.subrange(0, i as int)),
                    decreases v@.len() - i,
                {
                    proof {
                        assert(decreases_to!(*self => (*self)->Array_0));
                        assert(decreases_to!(v => v[i as int]));
                        assert(decreases_to!(*self => v[i as int]));
                    }
                    let value = v[i].deep_clone();
                    assert(v@.subrange(0, i + 1).drop_last() == v@.subrange(0, i as int));
                    assert(out@.push(value).drop_last() == out@);
                    out.push(value);
                    i = i + 1;
                }
                assert(v@.subrange(0, v@.len() as int) == v@);
                LuaValue::Array(out)
            },
            LuaValue::String(b) => LuaValue::String(b.clone()),
            LuaValue::Number(n) => LuaValue::Number(*n),
            LuaValue::Boolean(b) => LuaValue::Boolean(*b),
            LuaValue::Null => LuaValue::Null,
        }
    }

    /// The mathematical value.
    pub open spec fn view(self) -> Lua
        decreases self,
    {
        match self {
            LuaValue::Mapping(m) => Lua::Mapping(view_pairs(m@)),
            LuaValue::Array(v) => Lua::Array(view_seq(v@)),
            LuaValue::String(s) => Lua::Str(s@),
            LuaValue::Number(n) => Lua::Number(n),
            LuaValue::Boolean(b) => Lua::Boolean(b),
            LuaValue::Null => Lua::Null,
        }
    }
}

/// The mathematical values of a sequence of values.
pub open spec fn view_seq(s: Seq<LuaValue>) -> Seq<Lua>
    decreases s,
{
    if s.len() == 0 {
        seq![]
    } else {
        view_seq(s.drop_last()).push(s.last().view())
    }
}

/// The mathematical values of a sequence of key/value pairs.
pub open spec fn view_pairs(s: Seq<(LuaMapKey, LuaValue)>) -> Seq<(Lua, Lua)>
    decreases s,
{
    if s.len() == 0 {
        seq![]
    } else {
        view_pairs(s.drop_last()).push((s.last().0.value().view(), s.last().1.view()))
    }
}

/// `view_seq` keeps the length and views each item.
pub proof fn lemma_view_seq(s: Seq<LuaValue>)
    ensures
        view_seq(s).len() == s.len(),
        forall|i: int| 0 <= i < s.len() ==> #[trigger] view_seq(s)[i] == s[i].view(),
    decreases s.len(),
{
    if s.len() > 0 {
        lemma_view_seq(s.drop_last());
    }
}

/// `view_pairs` keeps the length and views each pair.
pub proof fn lemma_view_pairs(s: Seq<(LuaMapKey, LuaValue)>)
    ensures
        view_pairs(s).len() == s.len(),
        forall|i: int|
            0 <= i < s.len() ==> #[trigger] view_pairs(s)[i] == (
                s[i].0.value().view(),
                s[i].1.view(),
            ),
    decreases s.len(),
{
    if s.len() > 0 {
        lemma_view_pairs(s.drop_last());
    }
}

/// A key is larger than its value, for termination arguments.
pub proof fn lemma_key_decreases(k: LuaMapKey)
    ensures
        decreases_to!(k => k.value()),
{
}

/// Two doubles are equal by value: the same bit pattern but NaN, or both
/// zero whatever their signs.
pub open spec fn same_number(x: u64, y: u64) -> bool {
    (x == y && !(exponent_field(x) == 2047 && fraction_field(x) != 0)) || (x % SIGN_BIT == 0 && y
        % SIGN_BIT == 0)
}

/// Two map keys are the same key: strings, numbers and booleans by value;
/// tables never, since each table is its own identity.
pub open spec fn same_key(a: Lua, b: Lua) -> bool {
    match (a, b) {
        (Lua::Str(x), Lua::Str(y)) => x == y,
        (Lua::Number(x), Lua::Number(y)) => same_number(x, y),
        (Lua::Boolean(x), Lua::Boolean(y)) => x == y,
        _ => false,
    }
}

/// The position of the first pair whose key is the same key as `k`.
pub open spec fn key_position(pairs: Seq<(Lua, Lua)>, k: Lua) -> Option<nat>
    decreases pairs.len(),
{
    if pairs.len() == 0 {
        None
    } else {
        match key_position(pairs.drop_last(), k) {
            Some(i) => Some(i),
            None => if same_key(pairs.last().0, k) {
                Some((pairs.len() - 1) as nat)
            } else {
                None
            },
        }
    }
}

/// The pairs after setting key `k` to `v`: the value of an existing same key
/// is replaced, otherwise the pair is added at the end.
pub open spec fn insert_pair(pairs: Seq<(Lua, Lua)>, k: Lua, v: Lua) -> Seq<(Lua, Lua)> {
    match key_position(pairs, k) {
        Some(i) => pairs.update(i as int, (pairs[i as int].0, v)),
        None => pairs.push((k, v)),
    }
}

/// `a` and `b` are the same map key.
pub fn keys_equal(a: &LuaValue, b: &LuaValue) -> (r: bool)
    ensures
        r == same_key(a@, b@),
{
    match (a, b) {
        (LuaValue::String(x), LuaValue::String(y)) => bytes_equal(x.as_slice(), y.as_slice()),
        (LuaValue::Number(x), LuaValue::Number(y)) => {
            let nan = (*x / EXPONENT_UNIT) % 2048 == 2047 && *x % EXPONENT_UNIT != 0;
            (*x == *y && !nan) || (*x % SIGN_BIT == 0 && *y % SIGN_BIT == 0)
        },
        (LuaValue::Boolean(x), LuaValue::Boolean(y)) => *x == *y,
        _ => false,
    }
}

proof fn lemma_key_position_prefix(pairs: Seq<(Lua, Lua)>, k: Lua, n: nat)
    requires
        n <= pairs.len(),
        key_position(pairs.subrange(0, n as int), k) is None,
        forall|j: int| n <= j < pairs.len() ==> !same_key(#[trigger] pairs[j].0, k),
    ensures
        key_position(pairs, k) is None,
    decreases pairs.len(),
{
    if n < pairs.len() {
        assert(pairs.drop_last().subrange(0, n as int) == pairs.subrange(0, n as int));
        lemma_key_position_prefix(pairs.drop_last(), k, n);
    } else {
        assert(pairs.subrange(0, n as int) == pairs);
    }
}

proof fn lemma_key_position_found(pairs: Seq<(Lua, Lua)>, k: Lua, n: nat)
    requires
        n < pairs.len(),
        key_position(pairs.subrange(0, n as int), k) is None,
        same_key(pairs[n as int].0, k),
    ensures
        key_position(pairs, k) == Some(n),
    decreases pairs.len(),
{
    if n + 1 < pairs.len() {
        assert(pairs.drop_last().subrange(0, n as int) == pairs.subrange(0, n as int));
        lemma_key_position_found(pairs.drop_last(), k, n);
    } else {
        assert(pairs.drop_last() == pairs.subrange(0, n as int));
    }
}

/// Sets key `k` to `v` in the pairs `m`.
pub fn map_insert(m: &mut Vec<(LuaMapKey, LuaValue)>, k: LuaMapKey, v: LuaValue)
    ensures
        view_pairs(final(m)@) == insert_pair(view_pairs(old(m)@), k.value()@, v@),
{
    proof {
        lemma_view_pairs(m@);
    }
    let ghost pairs = view_pairs(m@);
    let mut i: usize = 0;
    while i < m.len()
        invariant
            pairs == view_pairs(m@),
            m@ == old(m)@,
            pairs.len() == m@.len(),
            forall|j: int|
                0 <= j < m@.len() ==> #[trigger] pairs[j] == (m@[j].0.value().view(), m@[j].1.view()),
            i <= m@.len(),
            key_position(pairs.subrange(0, i as int), k.value()@) is None,
        decreases m@.len() - i,
    {
        if keys_equal(m[i].0.as_value(), k.as_value()) {
            proof {
                lemma_key_position_found(pairs, k.value()@, i as nat);
            }
            let old_key = m[i].0.deep_clone();
            let ghost before = m@;
            m.set(i, (old_key, v));
            proof {
                lemma_view_pairs(m@);
                assert(view_pairs(m@) == pairs.update(i as int, (pairs[i as int].0, v@)));
            }
            return;
        }
        assert(pairs.subrange(0, i + 1).drop_last() == pairs.subrange(0, i as int));
        i = i + 1;
    }
    proof {
        assert(pairs.subrange(0, i as int) == pairs);
    }
    let ghost kv = k.value()@;
    let ghost vv = v@;
    m.push((k, v));
    proof {
        assert(m@.drop_last() == old(m)@);
    }
}

/// The position `key_position` finds holds the same key.
pub proof fn lemma_key_position_some(pairs: Seq<(Lua, Lua)>, k: Lua)
    ensures
        key_position(pairs, k) matches Some(j) ==> j < pairs.len() && same_key(pairs[j as int].0, k),
    decreases pairs.len(),
{
    if pairs.len() > 0 {
        lemma_key_position_some(pairs.drop_last(), k);
    }
}

} // verus!
