//! The text encodings, reached through the serde family of crates. Each
//! wrapper couples one parse with one print, exactly as the conversion needs
//! it: a binary document in, a text fragment out, or the reverse. Every
//! result is a deterministic function of the input bytes alone, so each gets
//! a name that the callers' contracts speak of.
use vstd::prelude::*;

verus! {

/// The JSON rendering of the value held by a binary-compact document.
pub uninterp spec fn json_bytes_of(doc: Seq<u8>) -> Seq<u8>;

/// Whether the rendering to JSON succeeds: a function of the document's
/// bytes alone (it fails on a malformed document or a value with no JSON
/// form, such as a map keyed by an array).
pub uninterp spec fn json_ok_of(doc: Seq<u8>) -> bool;

/// The YAML rendering of the value held by a binary-compact document.
pub uninterp spec fn yaml_bytes_of(doc: Seq<u8>) -> Seq<u8>;

/// Whether the rendering to YAML succeeds: a function of the document's
/// bytes alone.
pub uninterp spec fn yaml_ok_of(doc: Seq<u8>) -> bool;

/// The TOML rendering of the value held by a binary-compact document.
pub uninterp spec fn toml_bytes_of(doc: Seq<u8>) -> Seq<u8>;

/// Whether the rendering to TOML succeeds: a function of the document's
/// bytes alone (TOML accepts only a table with text keys at the top level).
pub uninterp spec fn toml_ok_of(doc: Seq<u8>) -> bool;

/// The binary-compact document for the value a JSON text holds.
pub uninterp spec fn cbor_of_json(text: Seq<u8>) -> Seq<u8>;

/// Whether the JSON parser accepts the text as one document: a function of
/// the text's bytes alone.
pub uninterp spec fn json_accepts(text: Seq<u8>) -> bool;

/// The binary-compact document for the value a YAML text holds.
pub uninterp spec fn cbor_of_yaml(text: Seq<u8>) -> Seq<u8>;

/// Whether the YAML parser accepts the text as one document: a function of
/// the text's bytes alone.
pub uninterp spec fn yaml_accepts(text: Seq<u8>) -> bool;

/// The binary-compact document for the value a TOML text holds.
pub uninterp spec fn cbor_of_toml(text: Seq<u8>) -> Seq<u8>;

/// Whether the TOML parser accepts the text as one document: a function of
/// the text's bytes alone.
pub uninterp spec fn toml_accepts(text: Seq<u8>) -> bool;

/// Relies on `serde_cbor::from_slice` to parse one binary document and on
/// `serde_json::to_string` to render it; both are deterministic functions of
/// the document's bytes. Fails where the bytes are not one well-formed
/// document or the value has no JSON form (such as a non-text map key).
#[verifier::external_body]
pub(crate) fn cbor_doc_to_json(doc: &Vec<u8>) -> (r: Result<Vec<u8>, String>)
    ensures
        r matches Ok(out) ==> out@ == json_bytes_of(doc@),
        r is Ok <==> json_ok_of(doc@),
{
    let v: serde_cbor::Value = serde_cbor::from_slice(doc).map_err(|e| format!("{}", e))?;
    let s = serde_json::to_string(&v).map_err(|e| format!("{}", e))?;
    Ok(s.into_bytes())
}

/// Relies on `serde_cbor::from_slice` and `serde_yaml::to_string`; both are
/// deterministic functions of the document's bytes.
#[verifier::external_body]
pub(crate) fn cbor_doc_to_yaml(doc: &Vec<u8>) -> (r: Result<Vec<u8>, String>)
    ensures
        r matches Ok(out) ==> out@ == yaml_bytes_of(doc@),
        r is Ok <==> yaml_ok_of(doc@),
{
    let v: serde_cbor::Value = serde_cbor::from_slice(doc).map_err(|e| format!("{}", e))?;
    let s = serde_yaml::to_string(&v).map_err(|e| format!("{}", e))?;
    Ok(s.into_bytes())
}

/// Relies on `serde_cbor::from_slice` and `toml::to_string`; both are
/// deterministic functions of the document's bytes. TOML accepts only a
/// table with text keys at the top level and rejects anything else.
#[verifier::external_body]
pub(crate) fn cbor_doc_to_toml(doc: &Vec<u8>) -> (r: Result<Vec<u8>, String>)
    ensures
        r matches Ok(out) ==> out@ == toml_bytes_of(doc@),
        r is Ok <==> toml_ok_of(doc@),
{
    let v: serde_cbor::Value = serde_cbor::from_slice(doc).map_err(|e| format!("{}", e))?;
    let s = toml::to_string(&v).map_err(|e| format!("{}", e))?;
    Ok(s.into_bytes())
}

/// Relies on `serde_json::from_slice` to parse one JSON text as a single
/// document and on `serde_cbor::to_vec` to write it; both are deterministic
/// functions of the text's bytes. The error message carries the parser's own
/// line and column.
#[verifier::external_body]
pub(crate) fn json_text_to_cbor(text: &Vec<u8>) -> (r: Result<Vec<u8>, String>)
    ensures
        r matches Ok(out) ==> out@ == cbor_of_json(text@),
        r is Ok <==> json_accepts(text@),
{
    let v: serde_json::Value = serde_json::from_slice(text).map_err(|e| format!("{}", e))?;
    serde_cbor::to_vec(&v).map_err(|e| format!("{}", e))
}

/// Relies on `serde_yaml::from_slice` and `serde_cbor::to_vec`; both are
/// deterministic functions of the text's bytes. The error message carries
/// the parser's own location.
#[verifier::external_body]
pub(crate) fn yaml_text_to_cbor(text: &Vec<u8>) -> (r: Result<Vec<u8>, String>)
    ensures
        r matches Ok(out) ==> out@ == cbor_of_yaml(text@),
        r is Ok <==> yaml_accepts(text@),
{
    let v: serde_yaml::Value = serde_yaml::from_slice(text).map_err(|e| format!("{}", e))?;
    serde_cbor::to_vec(&v).map_err(|e| format!("{}", e))
}

/// Relies on `core::str::from_utf8` and `toml::from_str` to parse one TOML
/// text, and on `serde_cbor::to_vec` to write it; all deterministic
/// functions of the text's bytes. The error message carries the parser's own
/// span.
#[verifier::external_body]
pub(crate) fn toml_text_to_cbor(text: &Vec<u8>) -> (r: Result<Vec<u8>, String>)
    ensures
        r matches Ok(out) ==> out@ == cbor_of_toml(text@),
        r is Ok <==> toml_accepts(text@),
{
    let s = core::str::from_utf8(text).map_err(|e| format!("{}", e))?;
    let v: toml::Value = toml::from_str(s).map_err(|e| format!("{}", e))?;
    serde_cbor::to_vec(&v).map_err(|e| format!("{}", e))
}

} // verus!
