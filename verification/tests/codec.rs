//! Tests of the codec: values, fields, messages and streaming chunks.

use biwi::{BiWiDecoder, BiWiEncoder, BiWiMessage, BiWiType, BiWiValue, DecodeError, SmallString};

#[test]
fn test_basic_encoding_decoding() {
    let mut msg = BiWiMessage::new();
    msg.set_field(1, BiWiValue::String("Hello".to_string()));
    msg.set_field(2, BiWiValue::Int32(42));

    let buffer = msg.to_vec();
    let decoded = BiWiMessage::from_buffer(&buffer).unwrap();

    assert_eq!(
        decoded.get_field(1),
        Some(&BiWiValue::String("Hello".to_string()))
    );
    assert_eq!(decoded.get_field(2), Some(&BiWiValue::Int32(42)));
}

#[test]
fn test_types() {
    assert!(BiWiType::Int32.is_fixed_size());
    assert!(BiWiType::String.is_variable_size());
    assert!(BiWiType::ChunkStart.is_streaming_type());
    assert_eq!(BiWiType::Float64.name(), "FLOAT64");
}

#[test]
fn test_varint_encoding() {
    let mut encoder = BiWiEncoder::new();
    encoder.encode_field(1, &BiWiValue::Int32(100));
    encoder.encode_field(200, &BiWiValue::Boolean(true));

    let buffer = encoder.to_buffer();
    let mut decoder = BiWiDecoder::new(&buffer);

    let field1 = decoder.decode_field().unwrap();
    assert_eq!(field1.field_id, 1);
    assert_eq!(field1.value, BiWiValue::Int32(100));

    let field2 = decoder.decode_field().unwrap();
    assert_eq!(field2.field_id, 200);
    assert_eq!(field2.value, BiWiValue::Boolean(true));
}

#[test]
fn type_codes_round_trip() {
    for code in 0x00u8..=0x0C {
        let t = BiWiType::from_u8(code).unwrap();
        assert_eq!(t.to_u8(), code);
    }
    assert_eq!(BiWiType::from_u8(0x0D), None);
    assert_eq!(BiWiType::from_u8(0xFF), None);
    assert_eq!(BiWiType::Null.fixed_size(), Some(0));
    assert_eq!(BiWiType::Boolean.fixed_size(), Some(1));
    assert_eq!(BiWiType::Int32.fixed_size(), Some(4));
    assert_eq!(BiWiType::Int64.fixed_size(), Some(8));
    assert_eq!(BiWiType::Float32.fixed_size(), Some(4));
    assert_eq!(BiWiType::Float64.fixed_size(), Some(8));
    assert_eq!(BiWiType::String.fixed_size(), None);
}

#[test]
fn varint_round_trips_with_exact_lengths() {
    let cases: &[(u32, usize)] = &[
        (0, 1),
        (1, 1),
        (127, 1),
        (128, 2),
        (300, 2),
        (16383, 2),
        (16384, 3),
        (0x1F_FFFF, 3),
        (0x20_0000, 4),
        (0x0FFF_FFFF, 4),
        (0x1000_0000, 5),
        (u32::MAX, 5),
    ];
    for &(value, len) in cases {
        let mut encoder = BiWiEncoder::new();
        encoder.write_varint(value);
        assert_eq!(encoder.size(), len);
        let buffer = encoder.to_buffer();
        let mut decoder = BiWiDecoder::new(&buffer);
        assert_eq!(decoder.read_varint().unwrap(), value);
        assert!(!decoder.has_more());
    }
}

#[test]
fn varint_u64_round_trips() {
    for &value in &[0u64, 127, 128, 16384, u32::MAX as u64, u64::MAX] {
        let mut encoder = BiWiEncoder::new();
        encoder.write_varint_u64(value);
        let buffer = encoder.to_buffer();
        let mut decoder = BiWiDecoder::new(&buffer);
        assert_eq!(decoder.read_varint_u64().unwrap(), value);
    }
}

#[test]
fn zigzag_round_trips() {
    for &n in &[0i32, 1, -1, 63, -64, 64, -65, 200, i32::MAX, i32::MIN] {
        let zz = BiWiEncoder::zigzag_encode_i32(n);
        assert_eq!(BiWiDecoder::zigzag_decode_i32(zz), n);
    }
    for &n in &[0i64, 1, -1, 200, i64::MAX, i64::MIN] {
        let zz = BiWiEncoder::zigzag_encode_i64(n);
        assert_eq!(BiWiDecoder::zigzag_decode_i64(zz), n);
    }
    assert_eq!(BiWiEncoder::zigzag_encode_i32(0), 0);
    assert_eq!(BiWiEncoder::zigzag_encode_i32(-1), 1);
    assert_eq!(BiWiEncoder::zigzag_encode_i32(1), 2);
    assert_eq!(BiWiEncoder::zigzag_encode_i32(200), 400);
}

#[test]
fn small_int_inline_encoding() {
    // An integer in [-64, 63] is the type byte plus one marker byte.
    let mut encoder = BiWiEncoder::new();
    encoder.encode_value(&BiWiValue::Int32(5));
    assert_eq!(encoder.to_buffer(), vec![0x02, 0x85]);

    let mut decoder = BiWiDecoder::new(&[0x02, 0x85]);
    assert_eq!(decoder.decode_value().unwrap(), BiWiValue::Int32(5));

    let mut encoder = BiWiEncoder::new();
    encoder.encode_value(&BiWiValue::Int32(-1));
    assert_eq!(encoder.to_buffer(), vec![0x02, 0xFF]);
    let mut decoder = BiWiDecoder::new(&[0x02, 0xFF]);
    assert_eq!(decoder.decode_value().unwrap(), BiWiValue::Int32(-1));
}

#[test]
fn larger_int_zigzag_varint_encoding() {
    let mut encoder = BiWiEncoder::new();
    encoder.encode_value(&BiWiValue::Int32(200));
    assert_eq!(encoder.to_buffer(), vec![0x02, 0x90, 0x03]);

    let mut decoder = BiWiDecoder::new(&[0x02, 0x90, 0x03]);
    assert_eq!(decoder.decode_value().unwrap(), BiWiValue::Int32(200));
}

#[test]
fn int64_round_trips() {
    for &n in &[0i64, 42, -64, 63, 1_000_000, -1_000_000, i64::MAX, i64::MIN] {
        let mut encoder = BiWiEncoder::new();
        encoder.encode_value(&BiWiValue::Int64(n));
        let buffer = encoder.to_buffer();
        let mut decoder = BiWiDecoder::new(&buffer);
        assert_eq!(decoder.decode_value().unwrap(), BiWiValue::Int64(n));
    }
}

#[test]
fn null_and_booleans() {
    let mut encoder = BiWiEncoder::new();
    encoder.encode_value(&BiWiValue::Null);
    encoder.encode_value(&BiWiValue::Boolean(true));
    encoder.encode_value(&BiWiValue::Boolean(false));
    let buffer = encoder.to_buffer();
    assert_eq!(buffer, vec![0x00, 0x01, 0xFF]);

    let mut decoder = BiWiDecoder::new(&buffer);
    assert_eq!(decoder.decode_value().unwrap(), BiWiValue::Null);
    assert_eq!(decoder.decode_value().unwrap(), BiWiValue::Boolean(true));
    assert_eq!(decoder.decode_value().unwrap(), BiWiValue::Boolean(false));
    assert_eq!(decoder.remaining(), 0);
    assert_eq!(decoder.offset(), 3);
}

#[test]
fn float_bit_patterns_are_big_endian() {
    // 1.5f32 is 0x3FC0_0000; the payload is its big-endian bytes.
    let bits32 = 1.5f32.to_bits();
    let mut encoder = BiWiEncoder::new();
    encoder.encode_value(&BiWiValue::Float32(bits32));
    assert_eq!(encoder.to_buffer(), vec![0x04, 0x3F, 0xC0, 0x00, 0x00]);

    let mut decoder = BiWiDecoder::new(&[0x04, 0x3F, 0xC0, 0x00, 0x00]);
    assert_eq!(decoder.decode_value().unwrap(), BiWiValue::Float32(bits32));
    assert_eq!(f32::from_bits(bits32), 1.5f32);

    let bits64 = 2.75f64.to_bits();
    let mut encoder = BiWiEncoder::new();
    encoder.encode_value(&BiWiValue::Float64(bits64));
    let buffer = encoder.to_buffer();
    assert_eq!(buffer.len(), 9);
    assert_eq!(buffer[0], 0x05);
    let mut decoder = BiWiDecoder::new(&buffer);
    assert_eq!(decoder.decode_value().unwrap(), BiWiValue::Float64(bits64));
}

#[test]
fn small_string_inline_form() {
    let small = SmallString::new("hi").unwrap();
    assert_eq!(small.as_str(), "hi");
    assert_eq!(small.as_bytes(), b"hi");
    assert!(SmallString::new("this is much longer than fifteen").is_none());

    let mut encoder = BiWiEncoder::new();
    encoder.encode_value(&BiWiValue::SmallString(small));
    // type byte, marker length 0x80 | 2, then the two bytes
    assert_eq!(encoder.to_buffer(), vec![0x06, 0x82, 0x68, 0x69]);

    let mut decoder = BiWiDecoder::new(&[0x06, 0x82, 0x68, 0x69]);
    let decoded = decoder.decode_value().unwrap();
    match decoded {
        BiWiValue::SmallString(s) => assert_eq!(s.as_str(), "hi"),
        other => panic!("expected a small string, got {:?}", other),
    }
}

#[test]
fn string_round_trips_with_multibyte_utf8() {
    // A two-byte UTF-8 character must appear as its exact bytes.
    let mut encoder = BiWiEncoder::new();
    encoder.encode_value(&BiWiValue::String("\u{e9}".to_string()));
    assert_eq!(encoder.to_buffer(), vec![0x06, 0x02, 0xC3, 0xA9]);

    let mut decoder = BiWiDecoder::new(&[0x06, 0x02, 0xC3, 0xA9]);
    assert_eq!(
        decoder.decode_value().unwrap(),
        BiWiValue::String("\u{e9}".to_string())
    );

    let text = "a string well past the inline length limit";
    let mut encoder = BiWiEncoder::new();
    encoder.encode_value(&BiWiValue::String(text.to_string()));
    let buffer = encoder.to_buffer();
    assert_eq!(buffer[0], 0x06);
    assert_eq!(buffer[1] as usize, text.len());
    let mut decoder = BiWiDecoder::new(&buffer);
    assert_eq!(
        decoder.decode_value().unwrap(),
        BiWiValue::String(text.to_string())
    );
}

#[test]
fn binary_round_trips() {
    let data = vec![0u8, 1, 2, 254, 255];
    let mut encoder = BiWiEncoder::new();
    encoder.encode_value(&BiWiValue::Binary(data.clone()));
    let buffer = encoder.to_buffer();
    assert_eq!(buffer[0], 0x07);
    assert_eq!(buffer[1], 5);
    let mut decoder = BiWiDecoder::new(&buffer);
    assert_eq!(decoder.decode_value().unwrap(), BiWiValue::Binary(data));
}

#[test]
fn packed_array_exact_bytes() {
    let array = BiWiValue::Array(vec![
        BiWiValue::Int32(1),
        BiWiValue::Int32(2),
        BiWiValue::Int32(3),
    ]);
    let mut encoder = BiWiEncoder::new();
    encoder.encode_value(&array);
    // marked packed type byte, element type, count, then zigzag varints
    assert_eq!(encoder.to_buffer(), vec![0x88, 0x02, 0x03, 0x02, 0x04, 0x06]);

    let mut decoder = BiWiDecoder::new(&[0x88, 0x02, 0x03, 0x02, 0x04, 0x06]);
    assert_eq!(decoder.decode_value().unwrap(), array);
}

#[test]
fn packed_and_plain_array_forms_decode_alike() {
    let array = BiWiValue::Array(vec![BiWiValue::Int32(300), BiWiValue::Int32(400)]);
    let mut encoder = BiWiEncoder::new();
    encoder.encode_value(&array);
    let packed = encoder.to_buffer();
    assert_eq!(packed, vec![0x88, 0x02, 0x02, 0xD8, 0x04, 0xA0, 0x06]);

    // the plain element-by-element form of the same array
    let plain = vec![0x08, 0x02, 0x02, 0xD8, 0x04, 0x02, 0xA0, 0x06];

    let mut d1 = BiWiDecoder::new(&packed);
    let mut d2 = BiWiDecoder::new(&plain);
    assert_eq!(d1.decode_value().unwrap(), array);
    assert_eq!(d2.decode_value().unwrap(), array);
}

#[test]
fn heterogeneous_and_nested_arrays() {
    let array = BiWiValue::Array(vec![
        BiWiValue::Boolean(false),
        BiWiValue::String("xyz".to_string()),
        BiWiValue::Array(vec![BiWiValue::Int64(900), BiWiValue::Int64(901)]),
        BiWiValue::Null,
    ]);
    let mut encoder = BiWiEncoder::new();
    encoder.encode_value(&array);
    let buffer = encoder.to_buffer();
    assert_eq!(buffer[0], 0x08);
    let mut decoder = BiWiDecoder::new(&buffer);
    assert_eq!(decoder.decode_value().unwrap(), array);

    let empty = BiWiValue::Array(vec![]);
    let mut encoder = BiWiEncoder::new();
    encoder.encode_value(&empty);
    assert_eq!(encoder.to_buffer(), vec![0x08, 0x00]);
}

#[test]
fn objects_round_trip() {
    let object = BiWiValue::Object(vec![
        ("alpha".to_string(), BiWiValue::Int32(700)),
        ("beta".to_string(), BiWiValue::String("value".to_string())),
    ]);
    let mut encoder = BiWiEncoder::new();
    encoder.encode_value(&object);
    let buffer = encoder.to_buffer();
    assert_eq!(buffer[0], 0x09);
    assert_eq!(buffer[1], 2);
    let mut decoder = BiWiDecoder::new(&buffer);
    assert_eq!(decoder.decode_value().unwrap(), object);
}

#[test]
fn duplicate_object_keys_collapse_on_decode() {
    // two entries under one key on the wire decode as a mapping would
    // read them: the later value wins, at the key's first position
    let object = BiWiValue::Object(vec![
        ("k".to_string(), BiWiValue::Int32(700)),
        ("other".to_string(), BiWiValue::Boolean(true)),
        ("k".to_string(), BiWiValue::Int32(900)),
    ]);
    let mut encoder = BiWiEncoder::new();
    encoder.encode_value(&object);
    let buffer = encoder.to_buffer();
    assert_eq!(buffer[1], 3);
    let mut decoder = BiWiDecoder::new(&buffer);
    let collapsed = BiWiValue::Object(vec![
        ("k".to_string(), BiWiValue::Int32(900)),
        ("other".to_string(), BiWiValue::Boolean(true)),
    ]);
    assert_eq!(decoder.decode_value().unwrap(), collapsed);
}

#[test]
fn decode_errors_are_precise() {
    // an unknown type byte
    let mut decoder = BiWiDecoder::new(&[0x0D]);
    assert_eq!(
        decoder.decode_value(),
        Err(DecodeError::UnknownType(0x0D))
    );

    // a type byte with no payload behind it
    let mut decoder = BiWiDecoder::new(&[0x02]);
    assert!(matches!(
        decoder.decode_value(),
        Err(DecodeError::InsufficientData(_))
    ));

    // a string whose declared length runs past the buffer
    let mut decoder = BiWiDecoder::new(&[0x06, 0x05, 0x61]);
    assert!(matches!(
        decoder.decode_value(),
        Err(DecodeError::InsufficientData(_))
    ));

    // an inline string holding bytes that are not UTF-8
    let mut decoder = BiWiDecoder::new(&[0x06, 0x82, 0xFF, 0xFF]);
    assert!(matches!(
        decoder.decode_value(),
        Err(DecodeError::InvalidData(_))
    ));

    // a packed array with an element type that is not a primitive
    let mut decoder = BiWiDecoder::new(&[0x88, 0x09, 0x01]);
    assert!(matches!(
        decoder.decode_value(),
        Err(DecodeError::InvalidData(_))
    ));

    // an empty buffer
    let mut decoder = BiWiDecoder::new(&[]);
    assert!(matches!(
        decoder.decode_value(),
        Err(DecodeError::InsufficientData(_))
    ));
}

#[test]
fn compact_field_headers_are_one_byte() {
    for id in [1u32, 5, 31] {
        let mut encoder = BiWiEncoder::new();
        encoder.encode_field(id, &BiWiValue::Null);
        let buffer = encoder.to_buffer();
        assert_eq!(buffer.len(), 2);
        assert!(buffer[0] < 0x80);
        assert_eq!(buffer[0] as u32 >> 2, id);
    }
    // ids up to 63 still use one header byte
    let mut encoder = BiWiEncoder::new();
    encoder.encode_field(63, &BiWiValue::Null);
    assert_eq!(encoder.to_buffer().len(), 2);
}

#[test]
fn extended_field_headers_round_trip() {
    for id in [200u32, 1000, 100_008] {
        let mut encoder = BiWiEncoder::new();
        encoder.encode_field(id, &BiWiValue::Int32(77));
        let buffer = encoder.to_buffer();
        let mut decoder = BiWiDecoder::new(&buffer);
        let field = decoder.decode_field().unwrap();
        assert_eq!(field.field_id, id);
        assert_eq!(field.value, BiWiValue::Int32(77));
    }
}

#[test]
fn decode_all_stops_at_incomplete_trailing_data() {
    let mut encoder = BiWiEncoder::new();
    encoder.encode_field(1, &BiWiValue::Int32(100));
    encoder.encode_field(2, &BiWiValue::String("ok".to_string()));
    let mut buffer = encoder.to_buffer();
    buffer.push(0x06); // a dangling type byte with nothing behind it

    let mut decoder = BiWiDecoder::new(&buffer);
    let fields = decoder.decode_all();
    assert_eq!(fields.len(), 2);
    assert_eq!(fields[0].field_id, 1);
    assert_eq!(fields[1].field_id, 2);
}

#[test]
fn message_operations() {
    let mut msg = BiWiMessage::with_capacity(4);
    assert_eq!(msg.field_count(), 0);
    msg.set_field(1, BiWiValue::Int32(10));
    msg.set_field(9, BiWiValue::Boolean(true));
    msg.set_field(1, BiWiValue::Int32(11)); // overwrite
    assert_eq!(msg.field_count(), 2);
    assert!(msg.has_field(1));
    assert!(msg.has_field(9));
    assert!(!msg.has_field(2));
    assert_eq!(msg.get_field(1), Some(&BiWiValue::Int32(11)));
    assert_eq!(msg.field_ids(), vec![1, 9]);

    let removed = msg.remove_field(9);
    assert_eq!(removed, Some(BiWiValue::Boolean(true)));
    assert_eq!(msg.remove_field(9), None);
    assert_eq!(msg.field_count(), 1);

    let copy = msg.clone();
    assert_eq!(copy.get_field(1), Some(&BiWiValue::Int32(11)));

    let encoded = msg.to_buffer();
    assert_eq!(msg.to_buffer(), encoded); // cached encoding is stable
    assert_eq!(msg.size(), encoded.len());
    assert_eq!(msg.to_vec(), encoded);
    assert_eq!(msg.fields().len(), 1);

    msg.clear();
    assert_eq!(msg.field_count(), 0);
    assert_eq!(msg.to_vec(), Vec::<u8>::new());
}

#[test]
fn message_round_trips_many_field_kinds() {
    let mut msg = BiWiMessage::new();
    msg.set_field(1, BiWiValue::String("Hello".to_string()));
    msg.set_field(2, BiWiValue::Int32(4200));
    msg.set_field(3, BiWiValue::Int64(-4_000_000_000));
    msg.set_field(4, BiWiValue::Binary(vec![9, 8, 7]));
    msg.set_field(
        5,
        BiWiValue::Array(vec![BiWiValue::Int32(100), BiWiValue::Int32(200)]),
    );
    msg.set_field(6, BiWiValue::Boolean(false));

    let decoded = BiWiMessage::from_buffer(&msg.to_vec()).unwrap();
    assert_eq!(decoded.field_count(), 6);
    assert_eq!(
        decoded.get_field(1),
        Some(&BiWiValue::String("Hello".to_string()))
    );
    assert_eq!(decoded.get_field(2), Some(&BiWiValue::Int32(4200)));
    assert_eq!(decoded.get_field(3), Some(&BiWiValue::Int64(-4_000_000_000)));
    assert_eq!(decoded.get_field(4), Some(&BiWiValue::Binary(vec![9, 8, 7])));
    assert_eq!(
        decoded.get_field(5),
        Some(&BiWiValue::Array(vec![
            BiWiValue::Int32(100),
            BiWiValue::Int32(200)
        ]))
    );
    assert_eq!(decoded.get_field(6), Some(&BiWiValue::Boolean(false)));
}

#[test]
fn from_buffer_surfaces_malformed_data() {
    // a valid compact field header, then an unknown value type byte
    assert_eq!(
        BiWiMessage::from_buffer(&[0x04, 0x0D]).err(),
        Some(DecodeError::UnknownType(0x0D))
    );
    // a field header, then an inline string holding invalid UTF-8
    assert!(matches!(
        BiWiMessage::from_buffer(&[0x04, 0x06, 0x81, 0xFF]),
        Err(DecodeError::InvalidData(_))
    ));
}

#[test]
fn from_buffer_discards_clean_truncation() {
    // a whole field followed by a header the buffer ends inside is the
    // end of the stream, not an error
    let mut msg = BiWiMessage::new();
    msg.set_field(1, BiWiValue::Boolean(true));
    let mut bytes = msg.to_vec();
    bytes.push(0x04);
    let decoded = BiWiMessage::from_buffer(&bytes).unwrap();
    assert_eq!(decoded.field_count(), 1);
    assert_eq!(decoded.get_field(1), Some(&BiWiValue::Boolean(true)));
}

#[test]
fn chunk_records_round_trip() {
    let mut encoder = BiWiEncoder::new();
    encoder.encode_chunk_start(7, 1000);
    let buffer = encoder.to_buffer();
    assert_eq!(buffer, vec![0x0A, 0x00, 0x07, 0x00, 0x00, 0x03, 0xE8]);
    // the caller consumes the type byte, the decoder reads the body
    let mut decoder = BiWiDecoder::new(&buffer[1..]);
    let start = decoder.decode_chunk_start().unwrap();
    assert_eq!(start.field_id, 7);
    assert_eq!(start.total_size, 1000);

    let mut encoder = BiWiEncoder::new();
    encoder.encode_chunk_data(3, &[0xAA, 0xBB]);
    encoder.encode_chunk_end();
    let buffer = encoder.to_buffer();
    assert_eq!(buffer, vec![0x0B, 0x00, 0x03, 0x00, 0x02, 0xAA, 0xBB, 0x0C]);
    let mut decoder = BiWiDecoder::new(&buffer[1..]);
    let data = decoder.decode_chunk_data().unwrap();
    assert_eq!(data.chunk_index, 3);
    assert_eq!(data.data, vec![0xAA, 0xBB]);
    assert_eq!(decoder.remaining(), 1);
}

#[test]
fn encoder_reset_and_views() {
    let mut encoder = BiWiEncoder::new();
    encoder.encode_value(&BiWiValue::Null);
    assert_eq!(encoder.size(), 1);
    assert_eq!(encoder.as_slice(), &[0x00]);
    encoder.reset();
    assert_eq!(encoder.size(), 0);
    let empty = BiWiEncoder::default();
    assert_eq!(empty.size(), 0);
}
