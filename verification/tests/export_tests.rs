use cbor_cli::error::{ConversionError, Format};
use cbor_cli::export::{encode_value_to, export_from_reader};
use cbor_cli::value::Value;

#[test]
fn test_export_from_reader_to_json() {
    // Exports some CBOR data.
    let input = vec![0x82, 0x01, 0x02];
    let delimiter = b"\n".to_vec();
    let output = export_from_reader(Format::Json, &delimiter, &input).unwrap();
    assert_eq!(output, b"[1,2]".to_vec());
}

#[test]
fn test_export_from_reader_to_yaml() {
    // Exports some CBOR data.
    let input = vec![0x82, 0x01, 0x02];
    let delimiter = b"\n".to_vec();
    let output = export_from_reader(Format::Yaml, &delimiter, &input).unwrap();
    assert_eq!(output, b"- 1\n- 2\n".to_vec());
}

#[test]
fn test_export_from_reader_to_cbor() {
    // Exports some CBOR data unchanged.
    let input = vec![0x82, 0x01, 0x02];
    let delimiter = b"\n".to_vec();
    let output = export_from_reader(Format::Cbor, &delimiter, &input).unwrap();
    assert_eq!(output, b"\x82\x01\x02".to_vec());
}

#[test]
fn test_export_from_reader_to_json_given_object() {
    // Exports a two-document stream: a map and a text string.
    let input = vec![0xa1, 0x61, 0x61, 0x61, 0x61, 0x61, 0x61];
    let delimiter = b"\n".to_vec();
    let output = export_from_reader(Format::Json, &delimiter, &input).unwrap();
    assert_eq!(output, b"{\"a\":\"a\"}\n\"a\"".to_vec());
}

#[test]
fn test_export_from_reader_to_yaml_given_object() {
    // Exports the same two-document stream as YAML.
    let input = vec![0xa1, 0x61, 0x61, 0x61, 0x61, 0x61, 0x61];
    let delimiter = b"\n".to_vec();
    let output = export_from_reader(Format::Yaml, &delimiter, &input).unwrap();
    assert_eq!(output, b"a: a\n\na\n".to_vec());
}

#[test]
fn test_separator_written_exactly_between_documents() {
    // Three documents, so the separator occurs exactly twice.
    let input = vec![0x01, 0x02, 0x03];
    let delimiter = b"|".to_vec();
    let output = export_from_reader(Format::Json, &delimiter, &input).unwrap();
    assert_eq!(output, b"1|2|3".to_vec());
}

#[test]
fn test_export_text_key_map_succeeds() {
    // A single-entry map with a text key has a JSON form.
    let input = vec![0xa1, 0x61, 0x61, 0x01];
    let delimiter = b"\n".to_vec();
    let output = export_from_reader(Format::Json, &delimiter, &input).unwrap();
    assert_eq!(output, b"{\"a\":1}".to_vec());
}

#[test]
fn test_export_scalar_key_map_is_stringified() {
    // The text encoder renders an integer key as a text key.
    let input = vec![0xa1, 0x01, 0x02];
    let delimiter = b"\n".to_vec();
    let output = export_from_reader(Format::Json, &delimiter, &input).unwrap();
    assert_eq!(output, b"{\"1\":2}".to_vec());
}

#[test]
fn test_export_non_text_key_map_fails() {
    // A map keyed by an array has no JSON form: a terminal encode error.
    let input = vec![0xa1, 0x81, 0x01, 0x02];
    let delimiter = b"\n".to_vec();
    let err = export_from_reader(Format::Json, &delimiter, &input).unwrap_err();
    match err {
        ConversionError::Encode(e) => assert_eq!(e.format, Format::Json),
        ConversionError::Decode(_) => panic!("expected an encode error"),
    }
}

#[test]
fn test_export_decode_error_carries_offset() {
    // Truncated mid-value: the error points at or before the cut.
    let input = vec![0x82, 0x01];
    let delimiter = b"\n".to_vec();
    let err = export_from_reader(Format::Json, &delimiter, &input).unwrap_err();
    match err {
        ConversionError::Decode(e) => {
            assert_eq!(e.format, Format::Cbor);
            assert!(e.position <= input.len());
        }
        ConversionError::Encode(_) => panic!("expected a decode error"),
    }
}

#[test]
fn test_encode_value_to_each_format() {
    // One fixed value, each target format's documented literal.
    let v = Value::Array(vec![Value::Integer(1), Value::Integer(2)]);
    assert_eq!(
        encode_value_to(Format::Cbor, &v).unwrap(),
        vec![0x82, 0x01, 0x02]
    );
    assert_eq!(encode_value_to(Format::Json, &v).unwrap(), b"[1,2]".to_vec());
    assert_eq!(
        encode_value_to(Format::Yaml, &v).unwrap(),
        b"- 1\n- 2\n".to_vec()
    );
}

#[test]
fn test_export_empty_stream() {
    let input: Vec<u8> = Vec::new();
    let delimiter = b"\n".to_vec();
    let output = export_from_reader(Format::Json, &delimiter, &input).unwrap();
    assert_eq!(output, Vec::<u8>::new());
}

#[test]
fn test_export_from_reader_to_toml() {
    // A single-entry map with a text key has a TOML form.
    let input = vec![0xa1, 0x63, 0x66, 0x6f, 0x6f, 0x01];
    let delimiter = b"\n".to_vec();
    let output = export_from_reader(Format::Toml, &delimiter, &input).unwrap();
    assert_eq!(output, b"foo = 1\n".to_vec());
}

#[test]
fn test_export_to_toml_rejects_non_table_document() {
    // TOML has no form for a top-level sequence: a terminal encode error.
    let input = vec![0x82, 0x01, 0x02];
    let delimiter = b"\n".to_vec();
    let err = export_from_reader(Format::Toml, &delimiter, &input).unwrap_err();
    match err {
        ConversionError::Encode(e) => assert_eq!(e.format, Format::Toml),
        ConversionError::Decode(_) => panic!("expected an encode error"),
    }
}

#[test]
fn test_float_survives_text_round_trip() {
    // Importing a JSON float writes it compressed; exporting widens it back
    // and prints the same decimal.
    let imported = cbor_cli::import::import_from_reader(Format::Json, &b"1.5".to_vec()).unwrap();
    let delimiter = b"\n".to_vec();
    let output = export_from_reader(Format::Json, &delimiter, &imported).unwrap();
    assert_eq!(output, b"1.5".to_vec());
}

#[test]
fn test_export_float_document() {
    // A binary64 float document has its JSON decimal rendering.
    let mut input = vec![0xfb];
    input.extend_from_slice(&1.5f64.to_bits().to_be_bytes());
    let delimiter = b"\n".to_vec();
    let output = export_from_reader(Format::Json, &delimiter, &input).unwrap();
    assert_eq!(output, b"1.5".to_vec());
}
