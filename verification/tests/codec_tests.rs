use cbor_cli::decode::{decode_at, decode_stream, DocumentStream};
use cbor_cli::encode::encode_value;
use cbor_cli::error::DecodeErrorKind;
use cbor_cli::value::Value;

fn sample_value() -> Value {
    Value::Dict(vec![
        (
            Value::Text(b"items".to_vec()),
            Value::Array(vec![
                Value::Integer(0),
                Value::Integer(23),
                Value::Integer(24),
                Value::Integer(1000),
                Value::Integer(100_000),
                Value::Integer(5_000_000_000),
                Value::Integer(-1),
                Value::Integer(-500),
                Value::Integer(i64::MAX),
                Value::Integer(i64::MIN),
            ]),
        ),
        (Value::Bool(true), Value::Null),
        (Value::Bytes(vec![0, 1, 2]), Value::Float(1.5f64.to_bits())),
        (Value::Integer(7), Value::Text(Vec::new())),
    ])
}

#[test]
fn test_round_trip_binary_compact() {
    // Decoding an encoding gives back the value; re-encoding it gives
    // byte-identical output.
    let v = sample_value();
    let encoded = encode_value(&v);
    let (decoded, end) = decode_at(&encoded, 0).unwrap();
    assert_eq!(end, encoded.len());
    assert_eq!(decoded, v);
    assert_eq!(encode_value(&decoded), encoded);
}

#[test]
fn test_fixed_value_binary_literal() {
    // The two-element integer sequence has the documented 3-byte encoding.
    let v = Value::Array(vec![Value::Integer(1), Value::Integer(2)]);
    assert_eq!(encode_value(&v), vec![0x82, 0x01, 0x02]);
}

#[test]
fn test_scalar_encodings() {
    assert_eq!(encode_value(&Value::Null), vec![0xf6]);
    assert_eq!(encode_value(&Value::Bool(false)), vec![0xf4]);
    assert_eq!(encode_value(&Value::Bool(true)), vec![0xf5]);
    assert_eq!(encode_value(&Value::Integer(0)), vec![0x00]);
    assert_eq!(encode_value(&Value::Integer(24)), vec![0x18, 0x18]);
    assert_eq!(encode_value(&Value::Integer(1000)), vec![0x19, 0x03, 0xe8]);
    assert_eq!(encode_value(&Value::Integer(-1)), vec![0x20]);
    assert_eq!(
        encode_value(&Value::Float(1.5f64.to_bits())),
        vec![0xfb, 0x3f, 0xf8, 0x00, 0x00, 0x00, 0x00, 0x00, 0x00]
    );
    assert_eq!(
        encode_value(&Value::Text(b"foo".to_vec())),
        vec![0x63, 0x66, 0x6f, 0x6f]
    );
    assert_eq!(
        encode_value(&Value::Bytes(vec![1, 2])),
        vec![0x42, 0x01, 0x02]
    );
}

#[test]
fn test_multi_document_stream_decodes_as_two() {
    // Two concatenated single-integer documents are two stream elements.
    let input = vec![0x01, 0x02];
    let docs = decode_stream(&input).unwrap();
    assert_eq!(docs, vec![Value::Integer(1), Value::Integer(2)]);
}

#[test]
fn test_document_stream_cursor() {
    let input = vec![0x01, 0x82, 0x02, 0x03];
    let mut stream = DocumentStream::new(&input);
    assert_eq!(stream.next().unwrap().unwrap(), Value::Integer(1));
    assert_eq!(
        stream.next().unwrap().unwrap(),
        Value::Array(vec![Value::Integer(2), Value::Integer(3)])
    );
    assert!(stream.next().is_none());
    assert!(stream.next().is_none());
}

#[test]
fn test_truncated_stream_yields_offset_error() {
    // Cut off mid-value: a decode error at or before the truncation point,
    // and no value for the failing unit.
    let input = vec![0x82, 0x01];
    let err = decode_stream(&input).unwrap_err();
    assert!(err.position <= input.len());
    assert_eq!(err.kind, DecodeErrorKind::UnexpectedEnd);

    let input2 = vec![0x19, 0x01];
    let err2 = decode_stream(&input2).unwrap_err();
    assert!(err2.position <= input2.len());
    assert_eq!(err2.kind, DecodeErrorKind::UnexpectedEnd);
}

#[test]
fn test_non_minimal_header_accepted_and_normalized() {
    // The integer 1 written with a one-byte argument field decodes, and
    // re-encoding writes it back in its shortest form.
    let input = vec![0x18, 0x01];
    let docs = decode_stream(&input).unwrap();
    assert_eq!(docs, vec![Value::Integer(1)]);
    assert_eq!(encode_value(&docs[0]), vec![0x01]);

    // A text string with a two-byte length field.
    let input2 = vec![0x79, 0x00, 0x01, 0x61];
    let docs2 = decode_stream(&input2).unwrap();
    assert_eq!(docs2, vec![Value::Text(b"a".to_vec())]);
    assert_eq!(encode_value(&docs2[0]), vec![0x61, 0x61]);
}

#[test]
fn test_tag_skipped_and_normalized() {
    // A tagged date string decodes to the tagged value itself.
    let input = vec![0xc0, 0x61, 0x61];
    let docs = decode_stream(&input).unwrap();
    assert_eq!(docs, vec![Value::Text(b"a".to_vec())]);

    // A tag with a one-byte argument, wrapping an integer.
    let input2 = vec![0xd8, 0x20, 0x02];
    let docs2 = decode_stream(&input2).unwrap();
    assert_eq!(docs2, vec![Value::Integer(2)]);
}

#[test]
fn test_unsupported_forms_rejected() {
    // A reserved simple-value form.
    let err = decode_stream(&vec![0xfc]).unwrap_err();
    assert_eq!(err.kind, DecodeErrorKind::UnsupportedTypeByte);
    // A break byte with no open indefinite item.
    let err = decode_stream(&vec![0xff]).unwrap_err();
    assert_eq!(err.kind, DecodeErrorKind::UnsupportedTypeByte);
    // A reserved argument width.
    let err = decode_stream(&vec![0x1c]).unwrap_err();
    assert_eq!(err.kind, DecodeErrorKind::UnsupportedTypeByte);
    // A truncated tag is an end-of-input error.
    let err = decode_stream(&vec![0xc0]).unwrap_err();
    assert_eq!(err.kind, DecodeErrorKind::UnexpectedEnd);
}

#[test]
fn test_indefinite_lengths_accepted_and_normalized() {
    // An indefinite-length array of two integers.
    let docs = decode_stream(&vec![0x9f, 0x01, 0x02, 0xff]).unwrap();
    assert_eq!(
        docs,
        vec![Value::Array(vec![Value::Integer(1), Value::Integer(2)])]
    );
    assert_eq!(encode_value(&docs[0]), vec![0x82, 0x01, 0x02]);

    // An empty indefinite-length map, and a one-entry one.
    let docs = decode_stream(&vec![0xbf, 0xff]).unwrap();
    assert_eq!(docs, vec![Value::Dict(Vec::new())]);
    let docs = decode_stream(&vec![0xbf, 0x61, 0x61, 0x01, 0xff]).unwrap();
    assert_eq!(
        docs,
        vec![Value::Dict(vec![(Value::Text(b"a".to_vec()), Value::Integer(1))])]
    );

    // Chunked byte and text strings concatenate.
    let docs = decode_stream(&vec![0x5f, 0x41, 0x01, 0x41, 0x02, 0xff]).unwrap();
    assert_eq!(docs, vec![Value::Bytes(vec![1, 2])]);
    let docs = decode_stream(&vec![0x7f, 0x61, 0x61, 0x61, 0x62, 0xff]).unwrap();
    assert_eq!(docs, vec![Value::Text(b"ab".to_vec())]);

    // An unterminated indefinite array is an end-of-input error.
    let err = decode_stream(&vec![0x9f, 0x01]).unwrap_err();
    assert_eq!(err.kind, DecodeErrorKind::UnexpectedEnd);

    // A non-string chunk inside a chunked string is rejected.
    let err = decode_stream(&vec![0x5f, 0x01, 0xff]).unwrap_err();
    assert_eq!(err.kind, DecodeErrorKind::UnsupportedTypeByte);
}

#[test]
fn test_half_and_single_floats_widen_losslessly() {
    // 1.0 as binary16.
    let docs = decode_stream(&vec![0xf9, 0x3c, 0x00]).unwrap();
    assert_eq!(docs, vec![Value::Float(1.0f64.to_bits())]);
    // 1.5 as binary32.
    let docs = decode_stream(&vec![0xfa, 0x3f, 0xc0, 0x00, 0x00]).unwrap();
    assert_eq!(docs, vec![Value::Float(1.5f64.to_bits())]);
    // The smallest binary16 subnormal, 2^-24.
    let docs = decode_stream(&vec![0xf9, 0x00, 0x01]).unwrap();
    assert_eq!(docs, vec![Value::Float((2.0f64).powi(-24).to_bits())]);
    // The smallest binary32 subnormal, 2^-149.
    let docs = decode_stream(&vec![0xfa, 0x00, 0x00, 0x00, 0x01]).unwrap();
    assert_eq!(docs, vec![Value::Float((2.0f64).powi(-149).to_bits())]);
    // Negative infinity as binary16.
    let docs = decode_stream(&vec![0xf9, 0xfc, 0x00]).unwrap();
    assert_eq!(docs, vec![Value::Float(f64::NEG_INFINITY.to_bits())]);
    // -2.5 as binary32.
    let docs = decode_stream(&vec![0xfa, 0xc0, 0x20, 0x00, 0x00]).unwrap();
    assert_eq!(docs, vec![Value::Float((-2.5f64).to_bits())]);
}

#[test]
fn test_integer_out_of_range_rejected() {
    // 2^63 does not fit the signed 64-bit value model.
    let input = vec![0x1b, 0x80, 0, 0, 0, 0, 0, 0, 0];
    let err = decode_stream(&input).unwrap_err();
    assert_eq!(err.kind, DecodeErrorKind::IntegerOverflow);
}

#[test]
fn test_invalid_utf8_rejected() {
    // A one-byte text string holding a stray continuation byte.
    let input = vec![0x61, 0xff];
    let err = decode_stream(&input).unwrap_err();
    assert_eq!(err.kind, DecodeErrorKind::InvalidUtf8);
}

#[test]
fn test_empty_stream_holds_no_documents() {
    let input: Vec<u8> = Vec::new();
    assert_eq!(decode_stream(&input).unwrap(), Vec::<Value>::new());
}

#[test]
fn test_map_round_trip_keeps_entry_order_and_duplicates() {
    // Insertion order and duplicate-looking keys survive the round trip.
    let v = Value::Dict(vec![
        (Value::Text(b"b".to_vec()), Value::Integer(1)),
        (Value::Text(b"a".to_vec()), Value::Integer(2)),
        (Value::Text(b"b".to_vec()), Value::Integer(3)),
    ]);
    let encoded = encode_value(&v);
    let (decoded, _) = decode_at(&encoded, 0).unwrap();
    assert_eq!(decoded, v);
}

#[test]
fn test_error_messages() {
    assert_eq!(
        DecodeErrorKind::UnexpectedEnd.message(),
        "unexpected end of input".to_string()
    );
    assert_eq!(
        DecodeErrorKind::Syntax("bad".to_string()).message(),
        "bad".to_string()
    );
}
