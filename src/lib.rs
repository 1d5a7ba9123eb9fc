//! Encoder and decoder for WeakAuras transport strings.
//!
//! A transport string is a version prefix (none, `!` or `!WA:2!`), then base64
//! over a custom alphabet of a DEFLATE stream (versions 1 and 2), which holds
//! a value tree in the text format (version 1) or the binary format
//! (version 2).
use std::io::Read;
use vstd::prelude::*;
use vstd::string::StringSliceAdditionalSpecFns;

pub mod ace_serialize;
pub mod base64;
pub mod bytes;
pub mod error;
pub mod lib_serialize;
pub mod number;
pub mod value;

pub use error::CodecError;
pub use value::{LuaMapKey, LuaValue};

use crate::ace_serialize::{ace_encoding, Deserializer as LegacyDeserializer, Serializer as LegacySerializer};
use crate::base64::{ascii_chars, decode_b64, encode_b64, encoded_len, is_b64_text, sextet};
use crate::lib_serialize::{encodable, lib_encoding, lua_eq, Deserializer, Serializer};
use crate::ace_serialize::deserialization::text_written;
use crate::ace_serialize::{decimal_choice, decimal_functions, decoded, text_encodable};
use crate::value::Lua;

verus! {

/// The largest payload that inflating may produce: 16 MiB.
pub const MAX_SIZE: usize = 16 * 1024 * 1024;

/// The envelope versions of a transport string.
#[derive(Clone, Copy, PartialEq, Eq, Debug, Structural)]
pub enum StringVersion {
    /// No prefix: base64 over a Huffman-coded text stream.
    Huffman,
    /// `!`: base64 over a DEFLATE-compressed text stream.
    Deflate,
    /// `!WA:2!`: base64 over a DEFLATE-compressed binary stream.
    BinarySerialization,
}

/// What raw DEFLATE decompression makes of `data`: every byte produced
/// before the stream ends or turns out to be malformed.
pub uninterp spec fn inflated(data: Seq<u8>) -> Seq<u8>;

/// `data` is a complete, well-formed raw DEFLATE stream.
pub uninterp spec fn inflates(data: Seq<u8>) -> bool;

/// What raw DEFLATE compression at the best ratio makes of `data`.
pub uninterp spec fn deflated(data: Seq<u8>) -> Seq<u8>;

/// Relies on `flate2::read::DeflateDecoder` read through `Read::take`: the
/// first `limit` bytes of the raw DEFLATE decompression of `data`, or `None`
/// where the stream is malformed or cut off within them; a complete stream
/// always reads.
#[verifier::external_body]
fn inflate_at_most(data: &[u8], limit: u64) -> (r: Option<Vec<u8>>)
    ensures
        inflates(data@) ==> r is Some,
        r matches Some(v) ==> v@ == inflated(data@).take(
            if inflated(data@).len() <= limit {
                inflated(data@).len() as int
            } else {
                limit as int
            },
        ),
{
    let mut out = Vec::new();
    match flate2::read::DeflateDecoder::new(data).take(limit).read_to_end(&mut out) {
        Ok(_) => Some(out),
        Err(_) => None,
    }
}

/// Relies on `flate2::read::DeflateEncoder` at `Compression::best()`: raw
/// DEFLATE compression of an in-memory slice, which yields a complete stream
/// that decompression undoes. Reading from a slice cannot fail, and the
/// miniz_oxide backend reports only buffer-full conditions on it.
#[verifier::external_body]
fn deflate_best(data: &[u8]) -> (r: Vec<u8>)
    ensures
        r@ == deflated(data@),
        inflates(r@),
        inflated(r@) == data@,
{
    let mut out = Vec::new();
    let mut encoder = flate2::read::DeflateEncoder::new(data, flate2::Compression::best());
    encoder.read_to_end(&mut out).expect("compressing a slice does not fail");
    out
}

/// `b` is ASCII whitespace: space, tab, line feed, form feed or carriage return.
pub open spec fn is_ascii_space(b: u8) -> bool {
    b == 0x20 || b == 0x09 || b == 0x0a || b == 0x0c || b == 0x0d
}

/// `s` without its trailing ASCII whitespace.
pub open spec fn trim_end(s: Seq<u8>) -> Seq<u8>
    decreases s.len(),
{
    if s.len() > 0 && is_ascii_space(s.last()) {
        trim_end(s.drop_last())
    } else {
        s
    }
}

/// `slice` without its trailing ASCII whitespace.
pub fn trim_ascii_from_end_of_slice(slice: &[u8]) -> (r: &[u8])
    ensures
        r@ == trim_end(slice@),
{
    let mut n = slice.len();
    assert(slice@.subrange(0, n as int) == slice@);
    while n > 0 && is_space(slice[n - 1])
        invariant
            n <= slice@.len(),
            trim_end(slice@.subrange(0, n as int)) == trim_end(slice@),
        decreases n,
    {
        assert(slice@.subrange(0, n as int).drop_last() == slice@.subrange(0, n - 1));
        n = n - 1;
    }
    assert(trim_end(slice@.subrange(0, n as int)) == slice@.subrange(0, n as int));
    &slice[0..n]
}

fn is_space(b: u8) -> (r: bool)
    ensures
        r == is_ascii_space(b),
{
    b == 0x20 || b == 0x09 || b == 0x0a || b == 0x0c || b == 0x0d
}

/// The `!WA:2!` prefix.
pub open spec fn binary_prefix() -> Seq<u8> {
    seq![0x21u8, 0x57u8, 0x41u8, 0x3au8, 0x32u8, 0x21u8]
}

/// The version of a transport string, and where its base64 text starts.
pub open spec fn sniff(s: Seq<u8>) -> (StringVersion, int) {
    if s.len() >= 6 && s.subrange(0, 6) == binary_prefix() {
        (StringVersion::BinarySerialization, 6)
    } else if s.len() >= 1 && s[0] == 0x21 {
        (StringVersion::Deflate, 1)
    } else {
        (StringVersion::Huffman, 0)
    }
}

/// The version of a transport string and the length of its prefix.
pub fn version_of(data: &[u8]) -> (r: (StringVersion, usize))
    ensures
        r.0 == sniff(data@).0,
        r.1 == sniff(data@).1,
{
    if data.len() >= 6 && data[0] == 0x21 && data[1] == 0x57 && data[2] == 0x41 && data[3] == 0x3a
        && data[4] == 0x32 && data[5] == 0x21 {
        assert(data@.subrange(0, 6) == binary_prefix());
        (StringVersion::BinarySerialization, 6)
    } else if data.len() >= 1 && data[0] == 0x21 {
        proof {
            if data@.len() >= 6 && data@.subrange(0, 6) == binary_prefix() {
                assert(data@[1] == data@.subrange(0, 6)[1]);
                assert(data@[2] == data@.subrange(0, 6)[2]);
                assert(data@[3] == data@.subrange(0, 6)[3]);
                assert(data@[4] == data@.subrange(0, 6)[4]);
                assert(data@[5] == data@.subrange(0, 6)[5]);
            }
        }
        (StringVersion::Deflate, 1)
    } else {
        proof {
            if data@.len() >= 6 && data@.subrange(0, 6) == binary_prefix() {
                assert(data@[0] == data@.subrange(0, 6)[0]);
            }
        }
        (StringVersion::Huffman, 0)
    }
}

/// The base64 text of a transport string: after the prefix, without
/// trailing whitespace.
pub open spec fn payload_text(s: Seq<u8>) -> Seq<u8> {
    trim_end(s.subrange(sniff(s).1, s.len() as int))
}

/// Takes the envelope off a transport string: the version, and the inner
/// stream after base64 decoding and inflating. Strings without a prefix
/// (Huffman-coded) are refused with `UnsupportedVersion`.
pub fn unwrap_envelope(data: &[u8]) -> (r: Result<(StringVersion, Vec<u8>), CodecError>)
    ensures
        sniff(data@).0 == StringVersion::Huffman ==> r == Err::<(StringVersion, Vec<u8>), CodecError>(
            CodecError::UnsupportedVersion,
        ),
        sniff(data@).0 != StringVersion::Huffman ==> (r matches Err(CodecError::InvalidBase64)
            <==> !is_b64_text(payload_text(data@))),
        r matches Err(CodecError::PayloadTooLarge) ==> is_b64_text(payload_text(data@)) && inflated(
            decode_b64(payload_text(data@)),
        ).len() > MAX_SIZE,
        r matches Ok((f, b)) ==> {
            &&& f == sniff(data@).0
            &&& f != StringVersion::Huffman
            &&& is_b64_text(payload_text(data@))
            &&& b@ == inflated(decode_b64(payload_text(data@)))
            &&& b@.len() <= MAX_SIZE
        },
        r matches Err(e) ==> e == CodecError::UnsupportedVersion || e == CodecError::InvalidBase64
            || e == CodecError::DeflateFailure || e == CodecError::PayloadTooLarge,
        r matches Err(CodecError::UnsupportedVersion) ==> sniff(data@).0 == StringVersion::Huffman,
        sniff(data@).0 != StringVersion::Huffman && is_b64_text(payload_text(data@)) && inflates(
            decode_b64(payload_text(data@)),
        ) ==> if inflated(decode_b64(payload_text(data@))).len() <= MAX_SIZE {
            r is Ok
        } else {
            r == Err::<(StringVersion, Vec<u8>), CodecError>(CodecError::PayloadTooLarge)
        },
{
    let (version, skip) = version_of(data);
    if version == StringVersion::Huffman {
        return Err(CodecError::UnsupportedVersion);
    }
    let text = trim_ascii_from_end_of_slice(&data[skip..data.len()]);
    let compressed = match base64::decode(text) {
        Ok(c) => c,
        Err(e) => {
            return Err(e);
        },
    };
    let decoded = match inflate_at_most(compressed.as_slice(), (MAX_SIZE + 1) as u64) {
        Some(d) => d,
        None => {
            return Err(CodecError::DeflateFailure);
        },
    };
    if decoded.len() > MAX_SIZE {
        return Err(CodecError::PayloadTooLarge);
    }
    Ok((version, decoded))
}

/// Decodes a transport string into its first value; `None` where the
/// stream holds no value. `parse_decimal` reads the decimal numbers that
/// are not plain integers into double bit patterns.
///
/// Strings without a prefix (Huffman-coded) are refused with
/// `UnsupportedVersion`.
pub fn decode<F: Fn(Vec<u8>) -> Option<u64>>(data: &str, parse_decimal: F) -> (r: Result<
    Option<LuaValue>,
    CodecError,
>)
    requires
        forall|t: Vec<u8>| #[trigger] parse_decimal.requires((t,)),
    ensures
        sniff(data.spec_bytes()).0 == StringVersion::Huffman ==> r == Err::<
            Option<LuaValue>,
            CodecError,
        >(CodecError::UnsupportedVersion),
        sniff(data.spec_bytes()).0 != StringVersion::Huffman ==> (r matches Err(
            CodecError::InvalidBase64,
        ) <==> !is_b64_text(payload_text(data.spec_bytes()))),
        r matches Err(CodecError::PayloadTooLarge) ==> is_b64_text(payload_text(data.spec_bytes()))
            && inflated(decode_b64(payload_text(data.spec_bytes()))).len() > MAX_SIZE,
        sniff(data.spec_bytes()).0 != StringVersion::Huffman && is_b64_text(
            payload_text(data.spec_bytes()),
        ) && inflates(decode_b64(payload_text(data.spec_bytes()))) && inflated(
            decode_b64(payload_text(data.spec_bytes())),
        ).len() > MAX_SIZE ==> r == Err::<Option<LuaValue>, CodecError>(CodecError::PayloadTooLarge),
        forall|v: Lua|
            encodable(v) && #[trigger] lib_encoding(v) is Ok && sniff(data.spec_bytes()).0
                == StringVersion::BinarySerialization && is_b64_text(payload_text(data.spec_bytes()))
                && inflates(decode_b64(payload_text(data.spec_bytes()))) && inflated(
                decode_b64(payload_text(data.spec_bytes())),
            ) == lib_encoding(v)->Ok_0 && lib_encoding(v)->Ok_0.len() <= MAX_SIZE ==> (r matches Ok(
                Some(x),
            ) && lua_eq(v, x@)),
        forall|v: Lua, dec: spec_fn(u64) -> Option<Seq<u8>>|
            sniff(data.spec_bytes()).0 == StringVersion::Deflate && is_b64_text(
                payload_text(data.spec_bytes()),
            ) && inflates(decode_b64(payload_text(data.spec_bytes()))) && #[trigger] text_written(
                v,
                dec,
                parse_decimal,
                inflated(decode_b64(payload_text(data.spec_bytes()))),
            ) && inflated(decode_b64(payload_text(data.spec_bytes()))).len() <= MAX_SIZE ==> (
            r matches Ok(Some(x)) && exists|w: Lua, d2: spec_fn(u64) -> Option<Seq<u8>>|
                #[trigger] text_written(
                    w,
                    d2,
                    parse_decimal,
                    inflated(decode_b64(payload_text(data.spec_bytes()))),
                ) && lua_eq(decoded(w), x@)),
        sniff(data.spec_bytes()).0 != StringVersion::Huffman && is_b64_text(
            payload_text(data.spec_bytes()),
        ) && inflates(decode_b64(payload_text(data.spec_bytes()))) && inflated(
            decode_b64(payload_text(data.spec_bytes())),
        ).len() <= MAX_SIZE ==> r != Err::<Option<LuaValue>, CodecError>(CodecError::DeflateFailure)
            && r != Err::<Option<LuaValue>, CodecError>(CodecError::PayloadTooLarge),
{
    let bytes = data.as_bytes();
    let unwrapped = unwrap_envelope(bytes);
    let (version, decoded) = match unwrapped {
        Ok(x) => x,
        Err(e) => {
            proof {
                assert(bytes@ == data.spec_bytes());
            }
            return Err(e);
        },
    };
    let result = if version == StringVersion::BinarySerialization {
        let reader = Deserializer::from_slice(decoded.as_slice(), parse_decimal);
        reader.deserialize_first()
    } else {
        let reader = LegacyDeserializer::from_str(decoded.as_slice(), parse_decimal);
        reader.deserialize_first()
    };
    match result {
        Err(CodecError::InvalidBase64) => Err(CodecError::InvalidToken),
        Err(CodecError::PayloadTooLarge) => Err(CodecError::InvalidToken),
        Err(CodecError::DeflateFailure) => Err(CodecError::InvalidToken),
        other => other,
    }
}

/// The inner stream of `v` for an envelope version.
pub open spec fn inner_stream(
    v: Lua,
    format: StringVersion,
    dec: spec_fn(u64) -> Option<Seq<u8>>,
) -> Result<Seq<u8>, CodecError> {
    if format == StringVersion::Deflate {
        ace_encoding(v, dec)
    } else {
        lib_encoding(v)
    }
}

/// The prefix of an envelope version.
pub open spec fn prefix_of(format: StringVersion) -> Seq<u8> {
    if format == StringVersion::Deflate {
        seq![0x21u8]
    } else {
        binary_prefix()
    }
}

/// The bytes of the transport string of the inner stream `inner`.
pub open spec fn transport_bytes(inner: Seq<u8>, format: StringVersion) -> Seq<u8> {
    prefix_of(format) + encode_b64(deflated(inner))
}

/// The transport string of the inner stream `inner`.
pub open spec fn transport_text(inner: Seq<u8>, format: StringVersion) -> Seq<char> {
    ascii_chars(transport_bytes(inner, format))
}

/// Encodes `value` as a transport string of version `format`.
/// `format_decimal` gives the shortest decimal of a double, which the text
/// format writes where `parse_decimal` reads it back as the same double.
pub fn encode<F: Fn(u64) -> Option<Vec<u8>>, G: Fn(Vec<u8>) -> Option<u64>>(
    value: &LuaValue,
    format: StringVersion,
    format_decimal: &F,
    parse_decimal: &G,
) -> (r: Result<String, CodecError>)
    requires
        format != StringVersion::Huffman,
        decimal_functions(*format_decimal, *parse_decimal),
    ensures
        match inner_stream(value@, format, decimal_choice(*format_decimal, *parse_decimal)) {
            Err(e) => r == Err::<String, CodecError>(e),
            Ok(inner) => {
                &&& inflated(deflated(inner)) == inner
                &&& inflates(deflated(inner))
                &&& if encoded_len(deflated(inner).len()) + prefix_of(format).len() <= usize::MAX {
                    r matches Ok(s) && s@ == transport_text(inner, format)
                } else {
                    r == Err::<String, CodecError>(CodecError::CapacityOverflow)
                }
            },
        },
{
    let serialized = if format == StringVersion::Deflate {
        LegacySerializer::serialize(value, None, format_decimal, parse_decimal)
    } else {
        Serializer::serialize(value, None)
    };
    let serialized = match serialized {
        Ok(s) => s,
        Err(e) => {
            return Err(e);
        },
    };
    let compressed = deflate_best(serialized.as_slice());
    let prefix = if format == StringVersion::Deflate {
        "!"
    } else {
        "!WA:2!"
    };
    proof {
        reveal_strlit("!");
        reveal_strlit("!WA:2!");
        vstd::string::is_ascii_spec_bytes(prefix);
        assert(prefix.spec_bytes().len() == prefix_of(format).len());
    }
    let r = base64::encode_with_prefix(compressed.as_slice(), prefix);
    proof {
        let enc = encode_b64(deflated(serialized@));
        assert(ascii_chars(prefix_of(format) + enc) == prefix@ + ascii_chars(enc));
    }
    r
}

/// Taking the envelope off the transport string of an inner stream gives
/// the version and a complete stream that inflates to the inner stream.
#[verifier::spinoff_prover]
#[verifier::rlimit(100)]
pub proof fn lemma_envelope_round_trip(inner: Seq<u8>, format: StringVersion)
    requires
        format != StringVersion::Huffman,
        inflated(deflated(inner)) == inner,
        inflates(deflated(inner)),
    ensures
        sniff(transport_bytes(inner, format)).0 == format,
        is_b64_text(payload_text(transport_bytes(inner, format))),
        decode_b64(payload_text(transport_bytes(inner, format))) == deflated(inner),
        inflates(decode_b64(payload_text(transport_bytes(inner, format)))),
        inflated(decode_b64(payload_text(transport_bytes(inner, format)))) == inner,
{
    let enc = encode_b64(deflated(inner));
    let t = transport_bytes(inner, format);
    let p = prefix_of(format);
    crate::base64::lemma_b64_round_trip(deflated(inner));
    if format == StringVersion::BinarySerialization {
        assert(t.subrange(0, 6) == binary_prefix());
    } else {
        if t.len() >= 6 && t.subrange(0, 6) == binary_prefix() {
            assert(t[3] == t.subrange(0, 6)[3]);
            assert(t[3] == enc[2]);
            assert(sextet(enc[2]) is Some);
        }
    }
    assert(t.subrange(p.len() as int, t.len() as int) == enc);
    if enc.len() > 0 {
        assert(sextet(enc.last()) is Some);
    }
    assert(trim_end(enc) == enc);
}

/// Decoding the binary transport string of an encodable value gives the
/// value back by value: the bytes that `encode` produces meet the binary
/// round-trip clause of `decode`, where the inner stream fits the inflate cap.
pub proof fn lemma_binary_round_trip(v: Lua, inner: Seq<u8>)
    requires
        encodable(v),
        lib_encoding(v) == Ok::<Seq<u8>, CodecError>(inner),
        inflated(deflated(inner)) == inner,
        inflates(deflated(inner)),
    ensures
        inflates(
            decode_b64(payload_text(transport_bytes(inner, StringVersion::BinarySerialization))),
        ),
        sniff(transport_bytes(inner, StringVersion::BinarySerialization)).0
            == StringVersion::BinarySerialization,
        is_b64_text(payload_text(transport_bytes(inner, StringVersion::BinarySerialization))),
        inflated(
            decode_b64(payload_text(transport_bytes(inner, StringVersion::BinarySerialization))),
        ) == lib_encoding(v)->Ok_0,
{
    lemma_envelope_round_trip(inner, StringVersion::BinarySerialization);
}

/// Decoding the text transport string of a text-encodable value gives the
/// decoded form of a value with the same text: the bytes that `encode`
/// produces meet the text round-trip clause of `decode`, where the inner
/// stream fits the inflate cap.
pub proof fn lemma_text_round_trip(v: Lua, inner: Seq<u8>, dec: spec_fn(u64) -> Option<Seq<u8>>)
    requires
        text_encodable(v),
        ace_encoding(v, dec) == Ok::<Seq<u8>, CodecError>(inner),
        inflated(deflated(inner)) == inner,
        inflates(deflated(inner)),
    ensures
        sniff(transport_bytes(inner, StringVersion::Deflate)).0 == StringVersion::Deflate,
        is_b64_text(payload_text(transport_bytes(inner, StringVersion::Deflate))),
        inflates(decode_b64(payload_text(transport_bytes(inner, StringVersion::Deflate)))),
        inflated(decode_b64(payload_text(transport_bytes(inner, StringVersion::Deflate))))
            == ace_encoding(v, dec)->Ok_0,
{
    lemma_envelope_round_trip(inner, StringVersion::Deflate);
}

/// Encoding is deterministic: two encodings of one value in one version
/// are the same string.
pub proof fn lemma_encode_deterministic(
    v: Lua,
    format: StringVersion,
    dec: spec_fn(u64) -> Option<Seq<u8>>,
    first: Seq<char>,
    second: Seq<char>,
)
    requires
        inner_stream(v, format, dec) is Ok,
        first == transport_text(inner_stream(v, format, dec)->Ok_0, format),
        second == transport_text(inner_stream(v, format, dec)->Ok_0, format),
    ensures
        first == second,
{
}

} // verus!
