//! Base64 over the WeakAuras alphabet `a-z A-Z 0-9 ( )`, without padding.
//!
//! Three bytes `b0 b1 b2` form the little-endian number `b0 + 256*b1 + 65536*b2`,
//! which is written as four characters, least significant six bits first.
//! A tail of one byte takes two characters, a tail of two bytes three.
use vstd::prelude::*;

use crate::error::CodecError;
use vstd::string::{StringExecFns, StringSliceAdditionalSpecFns};

verus! {

/// The character that stands for the six-bit value `v`.
pub open spec fn alphabet(v: int) -> u8 {
    if v < 26 {
        (97 + v) as u8
    } else if v < 52 {
        (65 + (v - 26)) as u8
    } else if v < 62 {
        (48 + (v - 52)) as u8
    } else if v == 62 {
        40u8
    } else {
        41u8
    }
}

/// The six-bit value of the character `c`, if it is in the alphabet.
pub open spec fn sextet(c: u8) -> Option<int> {
    if 97 <= c <= 122 {
        Some(c - 97)
    } else if 65 <= c <= 90 {
        Some(c - 65 + 26)
    } else if 48 <= c <= 57 {
        Some(c - 48 + 52)
    } else if c == 40 {
        Some(62)
    } else if c == 41 {
        Some(63)
    } else {
        None
    }
}

/// Length of the text for `n` bytes: `ceil(4n/3)`.
pub open spec fn encoded_len(n: nat) -> nat {
    (n / 3) * 4 + if n % 3 == 0 {
        0
    } else {
        n % 3 + 1
    }
}

/// The four characters of the three bytes of `b` that start at `i`.
pub open spec fn encode_group(b: Seq<u8>, i: int) -> Seq<u8> {
    group_chars(b[i] as int, b[i + 1] as int, b[i + 2] as int)
}

/// The four characters of the bytes `b0 b1 b2`.
pub open spec fn group_chars(b0: int, b1: int, b2: int) -> Seq<u8> {
    let x = b0 + 256 * b1 + 65536 * b2;
    seq![alphabet(x % 64), alphabet((x / 64) % 64), alphabet((x / 4096) % 64), alphabet(x / 262144)]
}

/// The text of the first `n` groups of three bytes of `b`.
pub open spec fn encode_groups(b: Seq<u8>, n: nat) -> Seq<u8>
    decreases n,
{
    if n == 0 {
        seq![]
    } else {
        encode_groups(b, (n - 1) as nat) + encode_group(b, 3 * (n - 1))
    }
}

/// The text of the last `b.len() % 3` bytes of `b`.
pub open spec fn encode_tail(b: Seq<u8>) -> Seq<u8> {
    let i = (3 * (b.len() / 3)) as int;
    if b.len() % 3 == 1 {
        seq![alphabet(b[i] as int % 64), alphabet(b[i] as int / 64)]
    } else if b.len() % 3 == 2 {
        let x = b[i] + 256 * b[i + 1];
        seq![alphabet(x % 64), alphabet((x / 64) % 64), alphabet(x / 4096)]
    } else {
        seq![]
    }
}

/// The base64 text of `b`.
pub open spec fn encode_b64(b: Seq<u8>) -> Seq<u8> {
    encode_groups(b, b.len() / 3) + encode_tail(b)
}

/// `s` is a base64 text: every character is in the alphabet and the length
/// leaves a remainder of 0, 2 or 3 when divided by 4.
pub open spec fn is_b64_text(s: Seq<u8>) -> bool {
    &&& s.len() % 4 != 1
    &&& forall|i: int| 0 <= i < s.len() ==> (#[trigger] sextet(s[i])) is Some
}

/// The three bytes of the four characters of `s` that start at `i`.
pub open spec fn decode_group(s: Seq<u8>, i: int) -> Seq<u8> {
    decoded_chars(s[i], s[i + 1], s[i + 2], s[i + 3])
}

/// Six-bit value of `c` (zero when it is not in the alphabet).
pub open spec fn sextet_or_zero(c: u8) -> int {
    match sextet(c) {
        Some(v) => v,
        None => 0,
    }
}

/// The three bytes of the characters `c0 c1 c2 c3`.
pub open spec fn decoded_chars(c0: u8, c1: u8, c2: u8, c3: u8) -> Seq<u8> {
    let x = sextet_or_zero(c0) + 64 * sextet_or_zero(c1) + 4096 * sextet_or_zero(c2) + 262144
        * sextet_or_zero(c3);
    seq![(x % 256) as u8, ((x / 256) % 256) as u8, (x / 65536) as u8]
}

/// The bytes of the first `n` groups of four characters of `s`.
pub open spec fn decode_groups(s: Seq<u8>, n: nat) -> Seq<u8>
    decreases n,
{
    if n == 0 {
        seq![]
    } else {
        decode_groups(s, (n - 1) as nat) + decode_group(s, 4 * (n - 1))
    }
}

/// The bytes of the last `s.len() % 4` characters of `s`.
pub open spec fn decode_tail(s: Seq<u8>) -> Seq<u8> {
    let i = (4 * (s.len() / 4)) as int;
    if s.len() % 4 == 2 {
        seq![(sextet_or_zero(s[i]) + 64 * (sextet_or_zero(s[i + 1]) % 4)) as u8]
    } else if s.len() % 4 == 3 {
        let x = sextet_or_zero(s[i]) + 64 * sextet_or_zero(s[i + 1]) + 4096 * (sextet_or_zero(s[i + 2]) % 16);
        seq![(x % 256) as u8, (x / 256) as u8]
    } else {
        seq![]
    }
}

/// The bytes that the base64 text `s` stands for.
pub open spec fn decode_b64(s: Seq<u8>) -> Seq<u8> {
    decode_groups(s, s.len() / 4) + decode_tail(s)
}

proof fn lemma_encode_groups_len(b: Seq<u8>, n: nat)
    ensures
        encode_groups(b, n).len() == 4 * n,
    decreases n,
{
    if n > 0 {
        lemma_encode_groups_len(b, (n - 1) as nat);
    }
}

proof fn lemma_decode_groups_len(s: Seq<u8>, n: nat)
    ensures
        decode_groups(s, n).len() == 3 * n,
    decreases n,
{
    if n > 0 {
        lemma_decode_groups_len(s, (n - 1) as nat);
    }
}

/// The text of `b` has `encoded_len(b.len())` characters.
pub proof fn lemma_encode_b64_len(b: Seq<u8>)
    ensures
        encode_b64(b).len() == encoded_len(b.len()),
{
    lemma_encode_groups_len(b, b.len() / 3);
}

proof fn lemma_alphabet_sextet(v: int)
    requires
        0 <= v < 64,
    ensures
        sextet(alphabet(v)) == Some(v),
{
}

/// Decoding reads only the first `4n` characters of each text.
proof fn lemma_decode_groups_prefix(s: Seq<u8>, t: Seq<u8>, n: nat)
    requires
        4 * n <= s.len(),
        4 * n <= t.len(),
        s.subrange(0, (4 * n) as int) == t.subrange(0, (4 * n) as int),
    ensures
        decode_groups(s, n) == decode_groups(t, n),
    decreases n,
{
    if n > 0 {
        let m = (n - 1) as nat;
        assert(s.subrange(0, (4 * m) as int) == s.subrange(0, (4 * n) as int).subrange(0, (4 * m) as int));
        assert(t.subrange(0, (4 * m) as int) == t.subrange(0, (4 * n) as int).subrange(0, (4 * m) as int));
        lemma_decode_groups_prefix(s, t, m);
        let i = (4 * m) as int;
        assert(s[i] == s.subrange(0, (4 * n) as int)[i]);
        assert(t[i] == t.subrange(0, (4 * n) as int)[i]);
        assert(s[i + 1] == s.subrange(0, (4 * n) as int)[i + 1]);
        assert(t[i + 1] == t.subrange(0, (4 * n) as int)[i + 1]);
        assert(s[i + 2] == s.subrange(0, (4 * n) as int)[i + 2]);
        assert(t[i + 2] == t.subrange(0, (4 * n) as int)[i + 2]);
        assert(s[i + 3] == s.subrange(0, (4 * n) as int)[i + 3]);
        assert(t[i + 3] == t.subrange(0, (4 * n) as int)[i + 3]);
    }
}

proof fn lemma_group_round_trip(b0: u32, b1: u32, b2: u32)
    requires
        b0 < 256,
        b1 < 256,
        b2 < 256,
    ensures
        ({
            let x = b0 + 256 * b1 + 65536 * b2;
            let y = x % 64 + 64 * ((x / 64) % 64) + 4096 * ((x / 4096) % 64) + 262144 * (x / 262144);
            &&& x / 262144 < 64
            &&& y % 256 == b0
            &&& (y / 256) % 256 == b1
            &&& y / 65536 == b2
        }),
{
    assert({
        let x = b0 + 256 * b1 + 65536 * b2;
        let y = x % 64 + 64 * ((x / 64) % 64) + 4096 * ((x / 4096) % 64) + 262144 * (x / 262144);
        &&& x / 262144 < 64
        &&& y % 256 == b0
        &&& (y / 256) % 256 == b1
        &&& y / 65536 == b2
    }) by (bit_vector)
        requires
            b0 < 256,
            b1 < 256,
            b2 < 256,
    ;
}

proof fn lemma_tail1_round_trip(b0: u32)
    requires
        b0 < 256,
    ensures
        b0 / 64 < 64,
        b0 % 64 + 64 * ((b0 / 64) % 4) == b0,
{
    assert(b0 / 64 < 64 && b0 % 64 + 64 * ((b0 / 64) % 4) == b0) by (bit_vector)
        requires
            b0 < 256,
    ;
}

proof fn lemma_tail2_round_trip(b0: u32, b1: u32)
    requires
        b0 < 256,
        b1 < 256,
    ensures
        ({
            let x = b0 + 256 * b1;
            let y = x % 64 + 64 * ((x / 64) % 64) + 4096 * ((x / 4096) % 16);
            &&& x / 4096 < 64
            &&& y % 256 == b0
            &&& y / 256 == b1
        }),
{
    assert({
        let x = b0 + 256 * b1;
        let y = x % 64 + 64 * ((x / 64) % 64) + 4096 * ((x / 4096) % 16);
        &&& x / 4096 < 64
        &&& y % 256 == b0
        &&& y / 256 == b1
    }) by (bit_vector)
        requires
            b0 < 256,
            b1 < 256,
    ;
}

proof fn lemma_groups_round_trip(b: Seq<u8>, n: nat)
    requires
        3 * n <= b.len(),
    ensures
        decode_groups(encode_groups(b, n), n) == b.subrange(0, (3 * n) as int),
        forall|i: int|
            0 <= i < encode_groups(b, n).len() ==> (#[trigger] sextet(encode_groups(b, n)[i])) is Some,
    decreases n,
{
    lemma_encode_groups_len(b, n);
    if n > 0 {
        let m = (n - 1) as nat;
        let e = encode_groups(b, n);
        let em = encode_groups(b, m);
        lemma_groups_round_trip(b, m);
        lemma_encode_groups_len(b, m);
        assert(e.subrange(0, (4 * m) as int) == em);
        assert(em.subrange(0, (4 * m) as int) == em);
        lemma_decode_groups_prefix(e, em, m);
        let i = (3 * m) as int;
        lemma_group_round_trip(b[i] as u32, b[i + 1] as u32, b[i + 2] as u32);
        let x = b[i] + 256 * b[i + 1] + 65536 * b[i + 2];
        lemma_alphabet_sextet(x % 64);
        lemma_alphabet_sextet((x / 64) % 64);
        lemma_alphabet_sextet((x / 4096) % 64);
        lemma_alphabet_sextet(x / 262144);
        let j = (4 * m) as int;
        assert(e[j] == alphabet(x % 64));
        assert(e[j + 1] == alphabet((x / 64) % 64));
        assert(e[j + 2] == alphabet((x / 4096) % 64));
        assert(e[j + 3] == alphabet(x / 262144));
        assert(decode_group(e, j) == b.subrange(i, i + 3));
        assert(b.subrange(0, (3 * n) as int) == b.subrange(0, i) + b.subrange(i, i + 3));
        assert forall|k: int| 0 <= k < e.len() implies (#[trigger] sextet(e[k])) is Some by {
            if k < j {
                assert(e[k] == em[k]);
            }
        }
    }
}

/// Decoding the text of any byte string gives that byte string back.
pub proof fn lemma_b64_round_trip(b: Seq<u8>)
    ensures
        is_b64_text(encode_b64(b)),
        decode_b64(encode_b64(b)) == b,
{
    let n = b.len() / 3;
    let g = encode_groups(b, n);
    let t = encode_tail(b);
    let e = encode_b64(b);
    lemma_groups_round_trip(b, n);
    lemma_encode_groups_len(b, n);
    lemma_encode_b64_len(b);
    assert(e.len() / 4 == n);
    assert(e.subrange(0, (4 * n) as int) == g);
    assert(g.subrange(0, (4 * n) as int) == g);
    lemma_decode_groups_prefix(e, g, n);
    let i = (3 * n) as int;
    let j = (4 * n) as int;
    if b.len() % 3 == 1 {
        lemma_tail1_round_trip(b[i] as u32);
        lemma_alphabet_sextet(b[i] as int % 64);
        lemma_alphabet_sextet(b[i] as int / 64);
        assert(e[j] == t[0]);
        assert(e[j + 1] == t[1]);
        assert(decode_tail(e) == b.subrange(i, b.len() as int));
    } else if b.len() % 3 == 2 {
        lemma_tail2_round_trip(b[i] as u32, b[i + 1] as u32);
        let x = b[i] + 256 * b[i + 1];
        lemma_alphabet_sextet(x % 64);
        lemma_alphabet_sextet((x / 64) % 64);
        lemma_alphabet_sextet(x / 4096);
        assert(e[j] == t[0]);
        assert(e[j + 1] == t[1]);
        assert(e[j + 2] == t[2]);
        assert(decode_tail(e) == b.subrange(i, b.len() as int));
    } else {
        assert(decode_tail(e) == b.subrange(i, b.len() as int));
    }
    assert(b == b.subrange(0, i) + b.subrange(i, b.len() as int));
    assert forall|k: int| 0 <= k < e.len() implies (#[trigger] sextet(e[k])) is Some by {
        if k < j {
            assert(e[k] == g[k]);
        } else if b.len() % 3 == 1 {
            lemma_alphabet_sextet(b[i] as int % 64);
            lemma_alphabet_sextet(b[i] as int / 64);
        } else {
            let x = b[i] + 256 * b[i + 1];
            lemma_alphabet_sextet(x % 64);
            lemma_alphabet_sextet((x / 64) % 64);
            lemma_alphabet_sextet(x / 4096);
        }
    }
}

fn alphabet_char(v: u32) -> (c: u8)
    requires
        v < 64,
    ensures
        c == alphabet(v as int),
{
    if v < 26 {
        (97 + v) as u8
    } else if v < 52 {
        (65 + (v - 26)) as u8
    } else if v < 62 {
        (48 + (v - 52)) as u8
    } else if v == 62 {
        40
    } else {
        41
    }
}

fn sextet_of(c: u8) -> (r: Option<u32>)
    ensures
        match r {
            Some(v) => sextet(c) == Some(v as int) && v < 64,
            None => sextet(c) is None,
        },
{
    if 97 <= c && c <= 122 {
        Some((c - 97) as u32)
    } else if 65 <= c && c <= 90 {
        Some((c - 65 + 26) as u32)
    } else if 48 <= c && c <= 57 {
        Some((c - 48 + 52) as u32)
    } else if c == 40 {
        Some(62)
    } else if c == 41 {
        Some(63)
    } else {
        None
    }
}

/// Length of the text for `data`, or `None` where it does not fit in `usize`.
pub fn calculate_capacity(data: &[u8]) -> (r: Option<usize>)
    ensures
        r == (if encoded_len(data@.len()) <= usize::MAX {
            Some(encoded_len(data@.len()) as usize)
        } else {
            None::<usize>
        }),
{
    let len = data.len();
    let leftover = len % 3;
    match (len / 3).checked_mul(4) {
        None => None,
        Some(full) => {
            if leftover > 0 {
                full.checked_add(leftover + 1)
            } else {
                Some(full)
            }
        },
    }
}

fn push_group(out: &mut Vec<u8>, b0: u8, b1: u8, b2: u8)
    ensures
        final(out)@ == old(out)@ + group_chars(b0 as int, b1 as int, b2 as int),
{
    let x: u32 = b0 as u32 + 256 * (b1 as u32) + 65536 * (b2 as u32);
    assert(x / 262144 < 64) by (bit_vector)
        requires
            x < 16777216u32,
    ;
    out.push(alphabet_char(x % 64));
    out.push(alphabet_char((x / 64) % 64));
    out.push(alphabet_char((x / 4096) % 64));
    out.push(alphabet_char(x / 262144));
}

/// Appends the text of `data` to `out`.
pub fn encode_into(data: &[u8], out: &mut Vec<u8>)
    ensures
        final(out)@ == old(out)@ + encode_b64(data@),
{
    let len = data.len();
    let full = len / 3;
    let mut g: usize = 0;
    let mut i: usize = 0;
    while g < full
        invariant
            full == data@.len() / 3,
            g <= full,
            i == 3 * g,
            out@ == old(out)@ + encode_groups(data@, g as nat),
        decreases full - g,
    {
        push_group(out, data[i], data[i + 1], data[i + 2]);
        g = g + 1;
        i = i + 3;
        assert(out@ == old(out)@ + encode_groups(data@, g as nat));
    }
    let i = 3 * full;
    if len % 3 == 1 {
        let x: u32 = data[i] as u32;
        out.push(alphabet_char(x % 64));
        out.push(alphabet_char(x / 64));
    } else if len % 3 == 2 {
        let x: u32 = data[i] as u32 + 256 * (data[i + 1] as u32);
        out.push(alphabet_char(x % 64));
        out.push(alphabet_char((x / 64) % 64));
        out.push(alphabet_char(x / 4096));
    }
    assert(out@ == old(out)@ + encode_b64(data@));
}

/// The base64 text of `data`, after `prefix`.
#[verifier::rlimit(50)]
pub fn encode_with_prefix(data: &[u8], prefix: &str) -> (r: Result<String, CodecError>)
    ensures
        match r {
            Ok(s) => encoded_len(data@.len()) + prefix.len() <= usize::MAX && s@
                == prefix@ + ascii_chars(encode_b64(data@)),
            Err(e) => encoded_len(data@.len()) + prefix.len() > usize::MAX && e
                == CodecError::CapacityOverflow,
        },
{
    let plen = prefix.len();
    let cap = match calculate_capacity(data) {
        None => {
            return Err(CodecError::CapacityOverflow);
        },
        Some(c) => c,
    };
    match cap.checked_add(plen) {
        None => {
            return Err(CodecError::CapacityOverflow);
        },
        Some(t) => {
            assert(t == cap + plen);
        },
    }
    assert(encoded_len(data@.len()) + prefix.len() <= usize::MAX);
    let text = encode_text(data, cap);
    let mut s = prefix.to_owned();
    let ghost p = s@;
    let t = text.as_str();
    assert(t@ == ascii_chars(encode_b64(data@)));
    s.append(t);
    assert(p == prefix@);
    assert(s@ == prefix@ + ascii_chars(encode_b64(data@)));
    Ok(s)
}

fn encode_text(data: &[u8], cap: usize) -> (r: String)
    ensures
        r@ == ascii_chars(encode_b64(data@)),
{
    let mut out: Vec<u8> = Vec::with_capacity(cap);
    encode_into(data, &mut out);
    proof {
        lemma_encoded_ascii(data@);
    }
    string_from_ascii(out)
}

/// The base64 text of `data`.
pub fn encode_raw(data: &[u8]) -> (r: Result<String, CodecError>)
    ensures
        match r {
            Ok(s) => encoded_len(data@.len()) <= usize::MAX && s@ == ascii_chars(encode_b64(data@)),
            Err(e) => encoded_len(data@.len()) > usize::MAX && e == CodecError::CapacityOverflow,
        },
{
    let cap = match calculate_capacity(data) {
        None => {
            return Err(CodecError::CapacityOverflow);
        },
        Some(c) => c,
    };
    let mut out: Vec<u8> = Vec::with_capacity(cap);
    encode_into(data, &mut out);
    proof {
        lemma_encoded_ascii(data@);
    }
    let s = string_from_ascii(out);
    assert(s@ == ascii_chars(encode_b64(data@)));
    Ok(s)
}

/// The characters of an ASCII byte string.
pub open spec fn ascii_chars(b: Seq<u8>) -> Seq<char> {
    b.map_values(|c: u8| c as char)
}

proof fn lemma_encoded_ascii(b: Seq<u8>)
    ensures
        forall|i: int| 0 <= i < encode_b64(b).len() ==> #[trigger] encode_b64(b)[i] < 128,
{
    lemma_b64_round_trip(b);
    assert forall|i: int| 0 <= i < encode_b64(b).len() implies #[trigger] encode_b64(b)[i] < 128 by {
        assert(sextet(encode_b64(b)[i]) is Some);
    }
}

/// Relies on `String::from_utf8`: ASCII bytes are valid UTF-8, and each byte
/// becomes the character with that code.
#[verifier::external_body]
fn string_from_ascii(v: Vec<u8>) -> (r: String)
    requires
        forall|i: int| 0 <= i < v@.len() ==> #[trigger] v@[i] < 128,
    ensures
        r@ == ascii_chars(v@),
{
    String::from_utf8(v).expect("ASCII is valid UTF-8")
}

/// Appends the three bytes of the characters `c0 c1 c2 c3`; false where one
/// of them is not in the alphabet.
fn push_decoded_group(out: &mut Vec<u8>, c0: u8, c1: u8, c2: u8, c3: u8) -> (ok: bool)
    ensures
        ok == (sextet(c0) is Some && sextet(c1) is Some && sextet(c2) is Some && sextet(c3) is Some),
        ok ==> final(out)@ == old(out)@ + decoded_chars(c0, c1, c2, c3),
{
    let v0 = match sextet_of(c0) {
        Some(v) => v,
        None => {
            return false;
        },
    };
    let v1 = match sextet_of(c1) {
        Some(v) => v,
        None => {
            return false;
        },
    };
    let v2 = match sextet_of(c2) {
        Some(v) => v,
        None => {
            return false;
        },
    };
    let v3 = match sextet_of(c3) {
        Some(v) => v,
        None => {
            return false;
        },
    };
    let x: u32 = v0 + 64 * v1 + 4096 * v2 + 262144 * v3;
    out.push((x % 256) as u8);
    out.push(((x / 256) % 256) as u8);
    out.push((x / 65536) as u8);
    true
}

/// The bytes of the base64 text `s`.
pub fn decode(s: &[u8]) -> (r: Result<Vec<u8>, CodecError>)
    ensures
        match r {
            Ok(v) => is_b64_text(s@) && v@ == decode_b64(s@),
            Err(e) => !is_b64_text(s@) && e == CodecError::InvalidBase64,
        },
{
    let len = s.len();
    if len % 4 == 1 {
        return Err(CodecError::InvalidBase64);
    }
    let full = len / 4;
    let mut out: Vec<u8> = Vec::with_capacity(full * 3 + 2);
    let mut g: usize = 0;
    let mut i: usize = 0;
    while g < full
        invariant
            full == s@.len() / 4,
            g <= full,
            i == 4 * g,
            out@ == decode_groups(s@, g as nat),
            forall|k: int| 0 <= k < i ==> (#[trigger] sextet(s@[k])) is Some,
        decreases full - g,
    {
        if !push_decoded_group(&mut out, s[i], s[i + 1], s[i + 2], s[i + 3]) {
            return Err(CodecError::InvalidBase64);
        }
        g = g + 1;
        i = i + 4;
        assert(out@ == decode_groups(s@, g as nat));
        assert forall|k: int| 0 <= k < i implies (#[trigger] sextet(s@[k])) is Some by {
            if k >= i - 4 {
                assert(k == i - 4 || k == i - 3 || k == i - 2 || k == i - 1);
            }
        }
    }
    let i = 4 * full;
    if len % 4 == 2 {
        let v0 = match sextet_of(s[i]) {
            Some(v) => v,
            None => {
                return Err(CodecError::InvalidBase64);
            },
        };
        let v1 = match sextet_of(s[i + 1]) {
            Some(v) => v,
            None => {
                return Err(CodecError::InvalidBase64);
            },
        };
        out.push((v0 + 64 * (v1 % 4)) as u8);
    } else if len % 4 == 3 {
        let v0 = match sextet_of(s[i]) {
            Some(v) => v,
            None => {
                return Err(CodecError::InvalidBase64);
            },
        };
        let v1 = match sextet_of(s[i + 1]) {
            Some(v) => v,
            None => {
                return Err(CodecError::InvalidBase64);
            },
        };
        let v2 = match sextet_of(s[i + 2]) {
            Some(v) => v,
            None => {
                return Err(CodecError::InvalidBase64);
            },
        };
        let x: u32 = v0 + 64 * v1 + 4096 * (v2 % 16);
        out.push((x % 256) as u8);
        out.push((x / 256) as u8);
    }
    assert forall|k: int| 0 <= k < s@.len() implies (#[trigger] sextet(s@[k])) is Some by {
        if k >= i {
            assert(k == i || k == i + 1 || k == i + 2);
        }
    }
    Ok(out)
}

} // verus!
