use std::io::Read;
use weakauras_codec::ace_serialize::Deserializer as TextDeserializer;
use weakauras_codec::ace_serialize::deserialization::{number_from_parts, number_from_text, unescape};
use weakauras_codec::ace_serialize::Serializer as TextSerializer;
use weakauras_codec::base64;
use weakauras_codec::lib_serialize::Deserializer as BinaryDeserializer;
use weakauras_codec::lib_serialize::Serializer as BinarySerializer;
use weakauras_codec::{decode, encode, CodecError, LuaMapKey, LuaValue, StringVersion};

fn parse_decimal(t: Vec<u8>) -> Option<u64> {
    std::str::from_utf8(&t)
        .ok()
        .and_then(|s| s.parse::<f64>().ok())
        .map(f64::to_bits)
}

fn shortest(b: u64) -> Option<Vec<u8>> {
    let f = f64::from_bits(b);
    if f.is_finite() {
        Some(ryu::Buffer::new().format_finite(f).as_bytes().to_vec())
    } else {
        None
    }
}

fn fourteen_digits(b: u64) -> Option<Vec<u8>> {
    Some(format!("{:.13e}", f64::from_bits(b)).into_bytes())
}

fn no_decimals(_b: u64) -> Option<Vec<u8>> {
    None
}

fn num(v: f64) -> LuaValue {
    LuaValue::Number(v.to_bits())
}

fn string(s: &[u8]) -> LuaValue {
    LuaValue::String(s.to_vec())
}

fn key(v: LuaValue) -> LuaMapKey {
    LuaMapKey::from_value(v).unwrap()
}

fn round_trip(v: &LuaValue, version: StringVersion) -> LuaValue {
    let text = encode(v, version, &shortest, &parse_decimal).unwrap();
    decode(&text, parse_decimal).unwrap().unwrap()
}

fn binary_inner(v: &LuaValue) -> Vec<u8> {
    BinarySerializer::serialize(v, None).unwrap()
}

fn sample() -> LuaValue {
    LuaValue::Mapping(vec![
        (key(string(b"name")), string(b"Aura \x00 ^ ~ name")),
        (key(num(1.0)), num(-12345.0)),
        (key(LuaValue::Boolean(true)), num(0.1)),
        (
            key(string(b"list")),
            LuaValue::Array(vec![num(1.5), LuaValue::Null, LuaValue::Boolean(false), string(b"xyz")]),
        ),
        (key(num(2.5)), num(1e300)),
        (key(num(-7.0)), num(-0.5)),
    ])
}

fn nested(depth: usize) -> LuaValue {
    let mut v = LuaValue::Array(vec![]);
    for _ in 1..depth {
        v = LuaValue::Array(vec![v]);
    }
    v
}

#[test]
fn encode_raw_and_with_empty_prefix_agree() {
    let data: Vec<u8> = (0..=255).cycle().take(1024 * 30 + 3).collect();
    let cap = (data.len() * 4 + 2) / 3;
    let buf1 = base64::encode_raw(&data).unwrap();
    let buf2 = base64::encode_with_prefix(&data, "").unwrap();
    assert_eq!(buf1.len(), cap);
    assert_eq!(buf1, buf2);
}

#[test]
fn encode_into_and_encode_raw_agree() {
    let data: Vec<u8> = (0..=255).cycle().take(1024 * 30 + 3).collect();
    let cap = (data.len() * 4 + 2) / 3;
    let mut buf1 = Vec::with_capacity(cap);
    base64::encode_into(&data, &mut buf1);
    let buf2 = base64::encode_raw(&data).unwrap();
    assert_eq!(buf1, buf2.as_bytes());
    assert_eq!(base64::decode(&buf1).unwrap(), data);
}

#[test]
fn base64_known_vectors() {
    assert_eq!(base64::encode_raw(b"").unwrap(), "");
    assert_eq!(base64::encode_raw(b"A").unwrap(), "bb");
    assert_eq!(base64::encode_raw(&[0, 0, 0]).unwrap(), "aaaa");
    assert_eq!(base64::encode_raw(&[255, 255, 255]).unwrap(), "))))");
    assert_eq!(base64::encode_raw(&[62]).unwrap(), "(a");
    assert_eq!(base64::encode_with_prefix(&[0, 0], "!").unwrap(), "!aaa");
    assert_eq!(base64::decode(b"bb").unwrap(), b"A".to_vec());
    assert_eq!(base64::calculate_capacity(&[1, 2, 3, 4]), Some(6));
}

#[test]
fn base64_rejects_bad_text() {
    assert_eq!(base64::decode(b"ab=c"), Err(CodecError::InvalidBase64));
    assert_eq!(base64::decode(b"abcde"), Err(CodecError::InvalidBase64));
}

#[test]
fn base64_round_trip() {
    for n in 0..200usize {
        let data: Vec<u8> = (0..n).map(|i| (i * 37 + n) as u8).collect();
        let text = base64::encode_raw(&data).unwrap();
        assert_eq!(text.len(), (n * 4 + 2) / 3);
        assert_eq!(base64::decode(text.as_bytes()).unwrap(), data);
    }
}

#[test]
fn round_trip_both_versions() {
    let v = sample();
    assert_eq!(round_trip(&v, StringVersion::Deflate), v);
    assert_eq!(round_trip(&v, StringVersion::BinarySerialization), v);
}

#[test]
fn re_encoding_a_decoded_string_keeps_the_value() {
    for version in [StringVersion::Deflate, StringVersion::BinarySerialization] {
        let text = encode(&sample(), version, &shortest, &parse_decimal).unwrap();
        let value = decode(&text, parse_decimal).unwrap().unwrap();
        let again = encode(&value, version, &shortest, &parse_decimal).unwrap();
        assert_eq!(decode(&again, parse_decimal).unwrap().unwrap(), value);
    }
}

#[test]
fn encoding_is_deterministic() {
    for version in [StringVersion::Deflate, StringVersion::BinarySerialization] {
        assert_eq!(encode(&sample(), version, &shortest, &parse_decimal).unwrap(), encode(&sample(), version, &shortest, &parse_decimal).unwrap());
    }
}

#[test]
fn depth_limit_on_encode() {
    for version in [StringVersion::Deflate, StringVersion::BinarySerialization] {
        assert!(encode(&nested(128), version, &shortest, &parse_decimal).is_ok());
        assert_eq!(encode(&nested(129), version, &shortest, &parse_decimal), Err(CodecError::RecursionLimit));
    }
}

#[test]
fn depth_limit_on_decode() {
    // 129 nested arrays of one item, the innermost empty.
    let mut deep = vec![1u8];
    deep.extend(std::iter::repeat(0x1a).take(128));
    deep.push(0x0a);
    let r = BinaryDeserializer::from_slice(&deep, parse_decimal).deserialize_first();
    assert_eq!(r, Err(CodecError::RecursionLimit));
    let mut ok = vec![1u8];
    ok.extend(std::iter::repeat(0x1a).take(127));
    ok.push(0x0a);
    let r = BinaryDeserializer::from_slice(&ok, parse_decimal).deserialize_first();
    assert_eq!(r.unwrap().unwrap(), nested(128));
}

#[test]
fn integer_tags() {
    let cases: Vec<(f64, Vec<u8>)> = vec![
        (0.0, vec![0x01]),
        (127.0, vec![0xff]),
        (128.0, vec![0x04, 0x08]),
        (4095.0, vec![0xf4, 0xff]),
        (4096.0, vec![0x08, 0x10, 0x00]),
        (65535.0, vec![0x08, 0xff, 0xff]),
        (65536.0, vec![0x18, 0x01, 0x00, 0x00]),
        (16777215.0, vec![0x18, 0xff, 0xff, 0xff]),
        (16777216.0, vec![0x28, 0x01, 0x00, 0x00, 0x00]),
        (4294967295.0, vec![0x28, 0xff, 0xff, 0xff, 0xff]),
        (4294967296.0, vec![0x38, 0x00, 0x00, 0x01, 0x00, 0x00, 0x00, 0x00]),
        (-128.0, vec![0x0c, 0x08]),
        (-4095.0, vec![0xfc, 0xff]),
        (-4096.0, vec![0x10, 0x10, 0x00]),
        (-65536.0, vec![0x20, 0x01, 0x00, 0x00]),
        (-16777216.0, vec![0x30, 0x01, 0x00, 0x00, 0x00]),
        (-4294967296.0, vec![0x40, 0x00, 0x00, 0x01, 0x00, 0x00, 0x00, 0x00]),
        (72057594037927935.0, {
            let mut b = vec![0x48];
            b.extend_from_slice(&72057594037927935.0f64.to_be_bytes());
            b
        }),
        (0.5, {
            let mut b = vec![0x48];
            b.extend_from_slice(&0.5f64.to_be_bytes());
            b
        }),
    ];
    for (v, bytes) in cases {
        let inner = binary_inner(&num(v));
        assert_eq!(inner[0], 1);
        assert_eq!(&inner[1..], &bytes[..], "{}", v);
        let back = BinaryDeserializer::from_slice(&inner, parse_decimal).deserialize_first();
        assert_eq!(back.unwrap().unwrap(), num(v), "{}", v);
    }
}

#[test]
fn string_length_tags() {
    let cases: Vec<(usize, Vec<u8>)> = vec![
        (0, vec![0x02]),
        (2, vec![0x22]),
        (3, vec![0x32]),
        (15, vec![0xf2]),
        (16, vec![0x70, 16]),
        (255, vec![0x70, 255]),
        (256, vec![0x78, 0x01, 0x00]),
        (65535, vec![0x78, 0xff, 0xff]),
        (65536, vec![0x80, 0x01, 0x00, 0x00]),
    ];
    for (len, head) in cases {
        let s = vec![b'q'; len];
        let inner = binary_inner(&LuaValue::String(s.clone()));
        assert_eq!(&inner[1..1 + head.len()], &head[..], "{}", len);
        assert_eq!(&inner[1 + head.len()..], &s[..]);
    }
}

#[test]
fn infinities_survive_the_text_format() {
    for v in [f64::INFINITY, f64::NEG_INFINITY] {
        let text = TextSerializer::serialize(&num(v), None, &shortest, &parse_decimal).unwrap();
        assert!(text.windows(6).any(|w| w == b"1.#INF"));
        assert_eq!(round_trip(&num(v), StringVersion::Deflate), num(v));
    }
}

#[test]
fn nan_is_refused_by_the_text_format() {
    assert_eq!(encode(&num(f64::NAN), StringVersion::Deflate, &shortest, &parse_decimal), Err(CodecError::UnrepresentableNumber));
}

#[test]
fn empty_map_binary() {
    let text = encode(&LuaValue::Mapping(vec![]), StringVersion::BinarySerialization, &shortest, &parse_decimal).unwrap();
    assert!(text.starts_with("!WA:2!"));
    assert_eq!(decode(&text, parse_decimal).unwrap().unwrap(), LuaValue::Mapping(vec![]));
}

#[test]
fn small_integer_text() {
    let text = encode(&num(42.0), StringVersion::Deflate, &shortest, &parse_decimal).unwrap();
    assert!(text.starts_with('!'));
    assert!(!text.starts_with("!WA:2!"));
    assert_eq!(decode(&text, parse_decimal).unwrap().unwrap(), num(42.0));
    assert_eq!(TextSerializer::serialize(&num(42.0), None, &shortest, &parse_decimal).unwrap(), b"^1^N42^^".to_vec());
}

#[test]
fn string_interning() {
    let v = LuaValue::Array(vec![string(b"hello"), string(b"hello"), string(b"hello")]);
    let inner = binary_inner(&v);
    let mut expected = vec![1u8, 0x3a, 0x52];
    expected.extend_from_slice(b"hello");
    expected.extend_from_slice(&[0xd0, 1, 0xd0, 1]);
    assert_eq!(inner, expected);
    let back = round_trip(&v, StringVersion::BinarySerialization);
    assert_eq!(back, v);
}

#[test]
fn escape_round_trip_text() {
    let mut bytes: Vec<u8> = (0x00..=0x20).collect();
    bytes.push(0x5e);
    bytes.push(0x7e);
    let v = LuaValue::String(bytes);
    let raw = TextSerializer::serialize(&v, None, &shortest, &parse_decimal).unwrap();
    let body = &raw[4..raw.len() - 2];
    assert!(!body.contains(&b'^'));
    for (i, b) in body.iter().enumerate() {
        if *b == b'~' {
            assert!(i + 1 < body.len());
        }
    }
    assert_eq!(round_trip(&v, StringVersion::Deflate), v);
}

#[test]
fn fraction_fallback() {
    let v = LuaValue::Number(0x3ff0_0000_0000_0001);
    // Fourteen significant digits do not read back as this double.
    let raw = TextSerializer::serialize(&v, None, &fourteen_digits, &parse_decimal).unwrap();
    assert_eq!(String::from_utf8(raw).unwrap(), "^1^F4503599627370497^f-52^^");
    let raw = TextSerializer::serialize(&v, None, &no_decimals, &parse_decimal).unwrap();
    assert_eq!(String::from_utf8(raw).unwrap(), "^1^F4503599627370497^f-52^^");
    // The shortest decimal does.
    let raw = TextSerializer::serialize(&v, None, &shortest, &parse_decimal).unwrap();
    assert_eq!(String::from_utf8(raw).unwrap(), "^1^N1.0000000000000002^^");
    assert_eq!(round_trip(&v, StringVersion::Deflate), v);
}

#[test]
fn shortest_decimals_in_text() {
    let raw = TextSerializer::serialize(&num(0.5), None, &shortest, &parse_decimal).unwrap();
    assert_eq!(String::from_utf8(raw).unwrap(), "^1^N0.5^^");
    let raw = TextSerializer::serialize(&num(-0.0), None, &shortest, &parse_decimal).unwrap();
    assert_eq!(String::from_utf8(raw).unwrap(), "^1^N-0.0^^");
    assert_eq!(round_trip(&num(-0.0), StringVersion::Deflate), num(-0.0));
    assert_eq!(round_trip(&num(1e300), StringVersion::Deflate), num(1e300));
}

#[test]
fn bad_references() {
    // String reference index 0, and past the end.
    assert_eq!(
        BinaryDeserializer::from_slice(&[1, 0xd0, 0], parse_decimal).deserialize_first(),
        Err(CodecError::InvalidReference)
    );
    assert_eq!(
        BinaryDeserializer::from_slice(&[1, 0xd0, 1], parse_decimal).deserialize_first(),
        Err(CodecError::InvalidReference)
    );
    // Table reference before any table, and a cut-off index.
    assert_eq!(
        BinaryDeserializer::from_slice(&[1, 0xe8, 1], parse_decimal).deserialize_first(),
        Err(CodecError::InvalidReference)
    );
    assert_eq!(
        BinaryDeserializer::from_slice(&[1, 0xe8], parse_decimal).deserialize_first(),
        Err(CodecError::TruncatedInput)
    );
    let unknown = TextDeserializer::from_str(b"^1^X^^", parse_decimal).deserialize_first();
    assert_eq!(unknown, Err(CodecError::InvalidToken));
}

fn deflate_text(payload: &[u8]) -> String {
    let mut out = Vec::new();
    flate2::read::DeflateEncoder::new(payload, flate2::Compression::best())
        .read_to_end(&mut out)
        .unwrap();
    base64::encode_with_prefix(&out, "!").unwrap()
}

#[test]
fn inflate_cap() {
    let limit = 16 * 1024 * 1024;
    let too_large = deflate_text(&vec![b'a'; limit + 1]);
    assert_eq!(decode(&too_large, parse_decimal), Err(CodecError::PayloadTooLarge));
    let mut fits = b"^1^S".to_vec();
    fits.extend(std::iter::repeat(b'a').take(limit - 1 - 6));
    fits.extend_from_slice(b"^^");
    assert_eq!(fits.len(), limit - 1);
    let v = decode(&deflate_text(&fits), parse_decimal).unwrap().unwrap();
    match v {
        LuaValue::String(s) => assert_eq!(s.len(), limit - 7),
        other => panic!("unexpected {:?}", other),
    }
}

#[test]
fn decode_errors() {
    assert_eq!(decode("abc", parse_decimal), Err(CodecError::UnsupportedVersion));
    assert_eq!(decode("!a=b", parse_decimal), Err(CodecError::InvalidBase64));
    let text = encode(&num(1.0), StringVersion::Deflate, &shortest, &parse_decimal).unwrap();
    assert_eq!(decode(&format!("{}  \n", text), parse_decimal).unwrap().unwrap(), num(1.0));
}

#[test]
fn binary_version_and_references() {
    assert_eq!(
        BinaryDeserializer::from_slice(&[2, 1], parse_decimal).deserialize_first(),
        Err(CodecError::UnsupportedVersion)
    );
    assert_eq!(BinaryDeserializer::from_slice(&[1], parse_decimal).deserialize_first(), Ok(None));
    // A string reference to a string that was never read.
    assert_eq!(
        BinaryDeserializer::from_slice(&[1, 0xd0, 1], parse_decimal).deserialize_first(),
        Err(CodecError::InvalidReference)
    );
    // An array, then a reference to it.
    let r = BinaryDeserializer::from_slice(&[1, 0x1a, 0x01, 0xe8, 1], parse_decimal).deserialize();
    let values = r.unwrap();
    assert_eq!(values.len(), 2);
    assert_eq!(values[0], values[1]);
    // A map with a nil key.
    assert_eq!(
        BinaryDeserializer::from_slice(&[1, 0x16, 0x00, 0x03], parse_decimal).deserialize_first(),
        Err(CodecError::InvalidKey)
    );
    // A truncated 12-bit integer.
    assert_eq!(
        BinaryDeserializer::from_slice(&[1, 0x04], parse_decimal).deserialize_first(),
        Err(CodecError::TruncatedInput)
    );
    // A decimal text number.
    assert_eq!(
        BinaryDeserializer::from_slice(&[1, 0x50, 3, b'0', b'.', b'5'], parse_decimal).deserialize_first(),
        Ok(Some(num(0.5)))
    );
    assert_eq!(
        BinaryDeserializer::from_slice(&[1, 0x58, 3, b'0', b'.', b'5'], parse_decimal).deserialize_first(),
        Ok(Some(num(-0.5)))
    );
}

#[test]
fn mixed_tables() {
    // Mixed, one array item and one pair: {[1] = true, x = 5}.
    let bytes = [1u8, 0x0e, 0x60, 0x12, b'x', 0x0b];
    let v = BinaryDeserializer::from_slice(&bytes, parse_decimal).deserialize_first().unwrap().unwrap();
    assert_eq!(
        v,
        LuaValue::Mapping(vec![(key(num(1.0)), LuaValue::Boolean(true)), (key(string(b"x")), num(5.0))])
    );
}

#[test]
fn text_tables_become_arrays_or_maps() {
    let arr = TextDeserializer::from_str(b"^1^T^N1^Sa^N2^Sb^t^^", parse_decimal).deserialize_first();
    assert_eq!(arr.unwrap().unwrap(), LuaValue::Array(vec![string(b"a"), string(b"b")]));
    let map = TextDeserializer::from_str(b"^1^T^N2^Sa^t^^", parse_decimal).deserialize_first();
    assert_eq!(map.unwrap().unwrap(), LuaValue::Mapping(vec![(key(num(2.0)), string(b"a"))]));
    let inf = TextDeserializer::from_str(b"^1^N-inf^^", parse_decimal).deserialize_first();
    assert_eq!(inf.unwrap().unwrap(), num(f64::NEG_INFINITY));
    let dec = TextDeserializer::from_str(b"^1^N0.25^^", parse_decimal).deserialize_first();
    assert_eq!(dec.unwrap().unwrap(), num(0.25));
    let bad = TextDeserializer::from_str(b"^1^Q^^", parse_decimal).deserialize_first();
    assert_eq!(bad, Err(CodecError::InvalidToken));
    let none = TextDeserializer::from_str(b"^1^^", parse_decimal).deserialize_first();
    assert_eq!(none, Ok(None));
    let wrong = TextDeserializer::from_str(b"^2^^", parse_decimal).deserialize_first();
    assert_eq!(wrong, Err(CodecError::UnsupportedVersion));
}

#[test]
fn map_keys_are_unique() {
    let bytes = [1u8, 0x26, 0x03, 0x05, 0x03, 0x07];
    let v = BinaryDeserializer::from_slice(&bytes, parse_decimal).deserialize_first().unwrap().unwrap();
    assert_eq!(v, LuaValue::Mapping(vec![(key(num(1.0)), num(3.0))]));
    assert_eq!(LuaMapKey::from_value(LuaValue::Null), Err(CodecError::InvalidKey));
}

#[test]
fn deep_clone_copies_the_tree() {
    let v = sample();
    assert_eq!(v.deep_clone(), v);
}

#[test]
fn error_messages() {
    assert_eq!(CodecError::RecursionLimit.message(), "recursion limit exceeded");
    assert_eq!(CodecError::PayloadTooLarge.message(), "compressed data is too large");
}

#[test]
fn unescape_inverts_escape() {
    let bytes: Vec<u8> = (0u8..=255).collect();
    let mut writer = TextSerializer::new();
    writer.serialize_string(&bytes);
    let escaped = writer.into_bytes();
    assert!(!escaped.contains(&b'^'));
    assert_eq!(unescape(&escaped).unwrap(), bytes);
    assert_eq!(unescape(b"~@~z~}").unwrap(), vec![0x00, 0x1e, 0x5e]);
    assert_eq!(unescape(b"ab~"), Err(CodecError::InvalidToken));
    assert_eq!(unescape(b"~\x01"), Err(CodecError::InvalidToken));
}

#[test]
fn binary_writer_pieces() {
    let mut writer = BinarySerializer::new();
    writer.serialize_int(0x0102_0304, 3);
    writer.serialize_string(b"abc").unwrap();
    writer.serialize_string(b"abc").unwrap();
    assert_eq!(writer.into_bytes(), vec![0x02, 0x03, 0x04, 0x32, b'a', b'b', b'c', 0xd0, 1]);
}

#[test]
fn text_number_readers() {
    assert_eq!(number_from_text(b"42".to_vec(), &parse_decimal), Ok(42.0f64.to_bits()));
    assert_eq!(number_from_text(b"-7".to_vec(), &parse_decimal), Ok((-7.0f64).to_bits()));
    assert_eq!(number_from_text(b"1.#INF".to_vec(), &parse_decimal), Ok(f64::INFINITY.to_bits()));
    assert_eq!(number_from_text(b"-inf".to_vec(), &parse_decimal), Ok(f64::NEG_INFINITY.to_bits()));
    assert_eq!(number_from_text(b"0.1".to_vec(), &parse_decimal), Ok(0.1f64.to_bits()));
    assert_eq!(number_from_text(b"x".to_vec(), &parse_decimal), Err(CodecError::InvalidToken));
    assert_eq!(number_from_parts(b"4503599627370497", b"-52"), Ok(0x3ff0_0000_0000_0001));
    assert_eq!(number_from_parts(b"-0", b"-1075"), Ok((-0.0f64).to_bits()));
    assert_eq!(number_from_parts(b"3", b"1"), Err(CodecError::InvalidToken));
}

#[test]
fn prefix_need_not_be_ascii() {
    assert_eq!(base64::encode_with_prefix(&[0, 0], "é").unwrap(), "éaaa");
}

#[test]
fn zero_keys_are_one_key() {
    // A map holding keys 0 (packed) and -0 (12-bit negative zero).
    let bytes = [1u8, 0x26, 0x01, 0x03, 0x0c, 0x00, 0x05];
    let v = BinaryDeserializer::from_slice(&bytes, parse_decimal).deserialize_first().unwrap().unwrap();
    assert_eq!(v, LuaValue::Mapping(vec![(key(num(0.0)), num(2.0))]));
}

#[test]
fn dense_text_maps_read_as_arrays() {
    let dense = LuaValue::Mapping(vec![(key(num(1.0)), string(b"a")), (key(num(2.0)), string(b"b"))]);
    assert_eq!(round_trip(&dense, StringVersion::Deflate), LuaValue::Array(vec![string(b"a"), string(b"b")]));
    assert_eq!(round_trip(&LuaValue::Mapping(vec![]), StringVersion::Deflate), LuaValue::Array(vec![]));
    assert_eq!(round_trip(&dense, StringVersion::BinarySerialization), dense);
}

#[test]
fn text_reader_scalars() {
    let t = TextDeserializer::from_str(b"^1^B^^", parse_decimal).deserialize_first();
    assert_eq!(t, Ok(Some(LuaValue::Boolean(true))));
    let n = TextDeserializer::from_str(b"^1^N42^^", parse_decimal).deserialize_first();
    assert_eq!(n, Ok(Some(num(42.0))));
    let all = TextDeserializer::from_str(b"^1^B^b^Z^^", parse_decimal).deserialize();
    assert_eq!(all.unwrap().len(), 3);
}

#[test]
fn binary_reader_lists_values() {
    let inner = binary_inner(&sample());
    let all = BinaryDeserializer::from_slice(&inner, parse_decimal).deserialize().unwrap();
    assert_eq!(all, vec![sample()]);
}

#[test]
fn encode_promises_success() {
    let text = encode(&LuaValue::Mapping(vec![]), StringVersion::BinarySerialization, &shortest, &parse_decimal).unwrap();
    assert!(text.starts_with("!WA:2!"));
    let text = encode(&num(42.0), StringVersion::Deflate, &shortest, &parse_decimal).unwrap();
    assert!(text.starts_with('!') && !text.starts_with("!WA:2!"));
}

#[test]
fn trailing_whitespace_is_ignored() {
    for version in [StringVersion::Deflate, StringVersion::BinarySerialization] {
        let text = encode(&sample(), version, &shortest, &parse_decimal).unwrap();
        let padded = format!("{} \t\r\n", text);
        assert_eq!(decode(&padded, parse_decimal), decode(&text, parse_decimal));
    }
}

#[test]
fn large_whole_numbers_round_trip() {
    for v in [9007199254740994.0f64, -36028797018963968.0, 72057594037927928.0] {
        assert_eq!(round_trip(&num(v), StringVersion::BinarySerialization), num(v));
        assert_eq!(round_trip(&num(v), StringVersion::Deflate), num(v));
    }
}

#[test]
fn mixed_tables_read_array_then_pairs() {
    // Embedded Mixed, one array item and one pair: {[1] = 1, [2] = 3}.
    let bytes = [1u8, 0x0e, 0x03, 0x05, 0x07];
    let v = BinaryDeserializer::from_slice(&bytes, parse_decimal).deserialize_first().unwrap().unwrap();
    assert_eq!(v, LuaValue::Mapping(vec![(key(num(1.0)), num(1.0)), (key(num(2.0)), num(3.0))]));
}
