use rtson::decode;
use rtson::encode;
use rtson::decode_from;
use rtson::error::TsonError;
use rtson::reader::Reader;
use rtson::ser::RSerializer;
use rtson::deser::{RTsonDeserializer, RBinaryDeserializer, RUTF8Deserializer};
use rtson::value::Value;

fn bytes(s: &str) -> Vec<u8> {
    s.as_bytes().to_vec()
}

fn round_trip(v: Value) -> Value {
    let encoded = encode(&v).expect("encodable");
    decode(&encoded).expect("decodable")
}

// The header of every stream: a String tag, then "1.1.0" NUL-terminated.
fn header() -> Vec<u8> {
    let mut h = vec![1u8];
    h.extend_from_slice(b"1.1.0\0");
    h
}

#[test]
fn round_trip_null() {
    assert_eq!(round_trip(Value::Null), Value::Null);
}

#[test]
fn round_trip_scalars() {
    assert_eq!(round_trip(Value::Bool(true)), Value::Bool(true));
    assert_eq!(round_trip(Value::Bool(false)), Value::Bool(false));
    assert_eq!(round_trip(Value::Int32(-123456)), Value::Int32(-123456));
    assert_eq!(round_trip(Value::Int32(i32::MIN)), Value::Int32(i32::MIN));
    let bits = 1.5f64.to_bits();
    assert_eq!(round_trip(Value::Float64(bits)), Value::Float64(bits));
    assert_eq!(round_trip(Value::Str(bytes("hello"))), Value::Str(bytes("hello")));
    assert_eq!(round_trip(Value::Str(Vec::new())), Value::Str(Vec::new()));
}

#[test]
fn round_trip_numeric_vectors() {
    assert_eq!(
        round_trip(Value::Uint8Vec(vec![0, 1, 255])),
        Value::Uint8Vec(vec![0, 1, 255])
    );
    assert_eq!(
        round_trip(Value::Int8Vec(vec![-128, 0, 127])),
        Value::Int8Vec(vec![-128, 0, 127])
    );
    assert_eq!(
        round_trip(Value::Uint16Vec(vec![0, 65535])),
        Value::Uint16Vec(vec![0, 65535])
    );
    assert_eq!(
        round_trip(Value::Int16Vec(vec![-32768, 32767])),
        Value::Int16Vec(vec![-32768, 32767])
    );
    assert_eq!(
        round_trip(Value::Uint32Vec(vec![0, 4294967295])),
        Value::Uint32Vec(vec![0, 4294967295])
    );
    assert_eq!(
        round_trip(Value::Int32Vec(vec![i32::MIN, -1, i32::MAX])),
        Value::Int32Vec(vec![i32::MIN, -1, i32::MAX])
    );
    assert_eq!(
        round_trip(Value::Int64Vec(vec![i64::MIN, 7, i64::MAX])),
        Value::Int64Vec(vec![i64::MIN, 7, i64::MAX])
    );
    assert_eq!(
        round_trip(Value::Uint64Vec(vec![0, u64::MAX])),
        Value::Uint64Vec(vec![0, u64::MAX])
    );
    let f32s: Vec<u32> = vec![1.5f32.to_bits(), (-0.25f32).to_bits()];
    assert_eq!(round_trip(Value::Float32Vec(f32s.clone())), Value::Float32Vec(f32s));
    let f64s: Vec<u64> = vec![6.02e23f64.to_bits(), f64::NAN.to_bits()];
    assert_eq!(round_trip(Value::Float64Vec(f64s.clone())), Value::Float64Vec(f64s));
    assert_eq!(round_trip(Value::Uint16Vec(Vec::new())), Value::Uint16Vec(Vec::new()));
}

#[test]
fn round_trip_string_vector() {
    let v = Value::StringVec(vec![bytes("ab"), bytes(""), bytes("xyz")]);
    let w = Value::StringVec(vec![bytes("ab"), bytes(""), bytes("xyz")]);
    assert_eq!(round_trip(v), w);
    assert_eq!(
        round_trip(Value::StringVec(Vec::new())),
        Value::StringVec(Vec::new())
    );
}

#[test]
fn round_trip_nested() {
    let v = Value::List(vec![
        Value::Null,
        Value::Mapping(vec![
            (bytes("k"), Value::Uint8Vec(vec![9])),
            (bytes("l"), Value::List(vec![Value::Bool(false)])),
        ]),
    ]);
    let w = Value::List(vec![
        Value::Null,
        Value::Mapping(vec![
            (bytes("k"), Value::Uint8Vec(vec![9])),
            (bytes("l"), Value::List(vec![Value::Bool(false)])),
        ]),
    ]);
    assert_eq!(round_trip(v), w);
}

#[test]
fn scenario_list_int_string() {
    let v = Value::List(vec![Value::Int32(1), Value::Str(bytes("ab"))]);
    let decoded = round_trip(v);
    assert_eq!(
        decoded,
        Value::List(vec![Value::Int32(1), Value::Str(bytes("ab"))])
    );
}

#[test]
fn scenario_map_single_pair() {
    let v = Value::Mapping(vec![(bytes("x"), Value::Bool(true))]);
    let decoded = round_trip(v);
    assert_eq!(decoded, Value::Mapping(vec![(bytes("x"), Value::Bool(true))]));
}

#[test]
fn map_order_preserved() {
    let v = Value::Mapping(vec![
        (bytes("zz"), Value::Int32(1)),
        (bytes("aa"), Value::Int32(2)),
    ]);
    match round_trip(v) {
        Value::Mapping(pairs) => {
            assert_eq!(pairs[0].0, bytes("zz"));
            assert_eq!(pairs[1].0, bytes("aa"));
        }
        other => panic!("expected a map, got {:?}", other),
    }
}

#[test]
fn map_duplicate_keys_kept_structurally() {
    let v = Value::Mapping(vec![
        (bytes("a"), Value::Null),
        (bytes("a"), Value::Bool(false)),
    ]);
    let decoded = round_trip(v);
    assert_eq!(
        decoded,
        Value::Mapping(vec![
            (bytes("a"), Value::Null),
            (bytes("a"), Value::Bool(false)),
        ])
    );
}

#[test]
fn header_layout() {
    let encoded = encode(&Value::Null).unwrap();
    let mut expected = header();
    expected.push(0u8);
    assert_eq!(encoded, expected);
}

#[test]
fn encoded_size_matches_encode() {
    let ser = RSerializer::new();
    let v = Value::List(vec![Value::Str(bytes("abc")), Value::Uint16Vec(vec![1, 2])]);
    let n = ser.encoded_size(&v).unwrap();
    let encoded = ser.encode(&v).unwrap();
    assert_eq!(n, encoded.len());
}

#[test]
fn little_endian_int32() {
    let encoded = encode(&Value::Int32(0x0403_0201)).unwrap();
    assert_eq!(&encoded[7..], &[2u8, 1, 2, 3, 4]);
}

#[test]
fn version_gate_rejects_other_token() {
    let mut stream = vec![1u8];
    stream.extend_from_slice(b"1.0.0\0");
    stream.push(0u8);
    assert_eq!(decode(&stream), Err(TsonError::FormatError));
}

#[test]
fn wrong_leading_tag_rejected() {
    let stream = vec![0u8, 0u8];
    assert_eq!(decode(&stream), Err(TsonError::FormatError));
}

#[test]
fn unknown_tag_rejected() {
    let mut stream = header();
    stream.push(99u8);
    stream.push(7u8);
    assert_eq!(decode(&stream), Err(TsonError::FormatError));
}

#[test]
fn empty_stream_truncated() {
    assert_eq!(decode(&[]), Err(TsonError::TruncatedInput));
}

#[test]
fn truncation_detected_everywhere() {
    let v = Value::List(vec![
        Value::Int32(7),
        Value::Str(bytes("ab")),
        Value::Uint16Vec(vec![513]),
        Value::StringVec(vec![bytes("q")]),
    ]);
    let encoded = encode(&v).unwrap();
    for cut in 0..encoded.len() {
        let prefix = &encoded[..cut];
        assert_eq!(
            decode(prefix),
            Err(TsonError::TruncatedInput),
            "prefix of {} bytes",
            cut
        );
    }
    assert!(decode(&encoded).is_ok());
}

#[test]
fn trailing_bytes_ignored() {
    let mut encoded = encode(&Value::Int32(5)).unwrap();
    encoded.extend_from_slice(&[0xde, 0xad]);
    assert_eq!(decode(&encoded), Ok(Value::Int32(5)));
}

#[test]
fn string_vector_field_is_byte_total() {
    let v = Value::StringVec(vec![bytes("ab"), bytes("c")]);
    let encoded = encode(&v).unwrap();
    // header (7 bytes), tag, then the 4-byte byte-count: (2+1) + (1+1) = 5.
    assert_eq!(encoded[7], 110u8);
    assert_eq!(&encoded[8..12], &[5u8, 0, 0, 0]);
    assert_eq!(&encoded[12..], b"ab\0c\0");
}

#[test]
fn string_vector_bad_partition_rejected() {
    // Declared byte count 2, but the first string needs 3 bytes.
    let mut stream = header();
    stream.push(110u8);
    stream.extend_from_slice(&[2, 0, 0, 0]);
    stream.extend_from_slice(b"ab\0");
    assert_eq!(decode(&stream), Err(TsonError::FormatError));
}

#[test]
fn map_key_must_be_tagged_string() {
    let mut stream = header();
    stream.push(11u8);
    stream.extend_from_slice(&[1, 0, 0, 0]);
    stream.push(2u8); // an Int32 tag where a key's String tag is required
    stream.extend_from_slice(&[1, 0, 0, 0]);
    assert_eq!(decode(&stream), Err(TsonError::FormatError));
}

#[test]
fn embedded_nul_rejected_on_encode() {
    let v = Value::Str(vec![b'a', 0u8, b'b']);
    assert_eq!(encode(&v), Err(TsonError::InvalidString));
    let k = Value::Mapping(vec![(vec![0u8], Value::Null)]);
    assert_eq!(encode(&k), Err(TsonError::InvalidString));
    let sv = Value::StringVec(vec![vec![b'x', 0u8]]);
    assert_eq!(encode(&sv), Err(TsonError::InvalidString));
}

#[test]
fn bool_any_nonzero_is_true() {
    let mut stream = header();
    stream.push(4u8);
    stream.push(7u8);
    assert_eq!(decode(&stream), Ok(Value::Bool(true)));
}

#[test]
fn decode_from_reader() {
    let encoded = encode(&Value::Str(bytes("hi"))).unwrap();
    let mut reader = Reader::new(&encoded);
    let deser = RTsonDeserializer::new();
    assert_eq!(deser.read(&mut reader), Ok(Value::Str(bytes("hi"))));
    let mut reader2 = Reader::new(&encoded);
    assert_eq!(decode_from(&mut reader2), Ok(Value::Str(bytes("hi"))));
}

#[test]
fn binary_deserializer_drains() {
    let data = [1u8, 2, 3];
    let mut reader = Reader::new(&data);
    let deser = RBinaryDeserializer::new();
    assert_eq!(deser.read(&mut reader), vec![1u8, 2, 3]);
}

#[test]
fn utf8_deserializer_decodes_text() {
    let data = "héllo".as_bytes();
    let mut reader = Reader::new(data);
    let deser = RUTF8Deserializer::new();
    assert_eq!(deser.read(&mut reader), Ok(String::from("héllo")));
    let bad = [0xffu8, 0xfe];
    let mut reader2 = Reader::new(&bad);
    assert_eq!(deser.read(&mut reader2), Err(TsonError::InvalidString));
}

#[test]
fn error_messages() {
    assert_eq!(TsonError::FormatError.message(), "wrong format");
    assert_eq!(TsonError::TooLarge.message(), "list too large");
}

#[test]
fn non_utf8_string_rejected_on_decode() {
    // A one-byte string 0xFF is not valid UTF-8: "bad string".
    let mut stream = header();
    stream.push(1u8);
    stream.extend_from_slice(&[0xff, 0]);
    assert_eq!(decode(&stream), Err(TsonError::InvalidString));
    // The same byte run inside a string vector.
    let mut sv = header();
    sv.push(110u8);
    sv.extend_from_slice(&[2, 0, 0, 0, 0xff, 0]);
    assert_eq!(decode(&sv), Err(TsonError::InvalidString));
}

#[test]
fn non_utf8_string_rejected_on_encode() {
    assert_eq!(encode(&Value::Str(vec![0xff])), Err(TsonError::InvalidString));
    assert_eq!(
        encode(&Value::StringVec(vec![vec![0xfe, 0xff]])),
        Err(TsonError::InvalidString)
    );
    assert_eq!(
        encode(&Value::Mapping(vec![(vec![0xff], Value::Null)])),
        Err(TsonError::InvalidString)
    );
}

#[test]
fn decode_from_stops_after_value() {
    let mut encoded = encode(&Value::Int32(9)).unwrap();
    let n = encoded.len();
    encoded.extend_from_slice(&[0xaa, 0xbb]);
    let mut reader = Reader::new(&encoded);
    assert_eq!(decode_from(&mut reader), Ok(Value::Int32(9)));
    let bin = RBinaryDeserializer::new();
    assert_eq!(bin.read(&mut reader), vec![0xaa, 0xbb]);
    assert_eq!(n + 2, encoded.len());
}
