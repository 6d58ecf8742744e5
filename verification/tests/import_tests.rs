use cbor_cli::error::{DecodeErrorKind, Format};
use cbor_cli::import::import_from_reader;

#[test]
fn test_import_from_reader_from_json() {
    // Imports some JSON data.
    let input = b"[1,2]".to_vec();
    let output = import_from_reader(Format::Json, &input).unwrap();
    assert_eq!(output, vec![0x82, 0x01, 0x02]);
}

#[test]
fn test_import_from_reader_from_yaml() {
    // Imports some YAML data.
    let input = b"- 1\n- 2\n".to_vec();
    let output = import_from_reader(Format::Yaml, &input).unwrap();
    assert_eq!(output, vec![0x82, 0x01, 0x02]);
}

#[test]
fn test_import_from_reader_from_toml() {
    // Imports some TOML data; the keys keep their order from the input.
    let input = b"foo = 1\nbar = 2\n".to_vec();
    let output = import_from_reader(Format::Toml, &input).unwrap();
    assert_eq!(
        output,
        vec![0xa2, 0x63, 0x66, 0x6f, 0x6f, 0x01, 0x63, 0x62, 0x61, 0x72, 0x02]
    );
}

#[test]
fn test_import_from_reader_from_cbor() {
    // Imports some CBOR data: re-encoding reproduces the input exactly.
    let input = b"\x82\x01\x02".to_vec();
    let output = import_from_reader(Format::Cbor, &input).unwrap();
    assert_eq!(output, vec![0x82, 0x01, 0x02]);
}

#[test]
fn test_import_cbor_identity_on_multi_document_stream() {
    let input = vec![0x01, 0x82, 0x02, 0x03];
    let output = import_from_reader(Format::Cbor, &input).unwrap();
    assert_eq!(output, input);
}

#[test]
fn test_import_cbor_normalizes_wide_headers_and_tags() {
    // A one-byte-argument integer and a tagged integer come out canonical.
    let input = vec![0x18, 0x01, 0xc1, 0x02];
    let output = import_from_reader(Format::Cbor, &input).unwrap();
    assert_eq!(output, vec![0x01, 0x02]);
}

#[test]
fn test_import_json_syntax_error() {
    let input = b"[1,".to_vec();
    let err = import_from_reader(Format::Json, &input).unwrap_err();
    assert_eq!(err.format, Format::Json);
    assert!(matches!(err.kind, DecodeErrorKind::Syntax(_)));
}

#[test]
fn test_import_cbor_truncated_stream() {
    let input = vec![0x82, 0x01];
    let err = import_from_reader(Format::Cbor, &input).unwrap_err();
    assert_eq!(err.format, Format::Cbor);
    assert!(err.position <= input.len());
}
