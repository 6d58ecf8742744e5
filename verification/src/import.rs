//! The import path: convert a stream in a source format into binary-compact
//! output. Text sources hold exactly one document per stream; the
//! binary-compact source is validated document by document and re-encoded
//! canonically.
use vstd::prelude::*;

use crate::bridge::{cbor_of_json, cbor_of_toml, cbor_of_yaml, json_accepts, json_text_to_cbor,
    toml_accepts, toml_text_to_cbor, yaml_accepts, yaml_text_to_cbor};
use crate::codec::{spec_decode_stream, spec_encode_items, spec_valid_prefix_len};
use crate::decode::decode_stream;
use crate::encode::{encode_into, lemma_encode_items_snoc};
use crate::error::{DecodeError, DecodeErrorKind, Format};
use crate::value::models_of;

verus! {

broadcast use vstd::std_specs::vec::group_vec_axioms, vstd::seq::group_seq_axioms;

/// Converts a stream in `input_format` to binary-compact bytes. A text
/// source yields exactly one document; its parser decides which inputs are
/// accepted, and its error message (with the parser's own positional
/// information) comes back in the `Syntax` kind. A binary-compact source is
/// decoded and re-encoded document by document, which succeeds exactly when
/// the whole stream decodes and emits each document's canonical encoding —
/// byte-identical input for input already in canonical form.
#[verifier::loop_isolation(false)]
pub fn import_from_reader(input_format: Format, input: &Vec<u8>) -> (r: Result<
    Vec<u8>,
    DecodeError,
>)
    ensures
        input_format == Format::Json ==> (r matches Ok(out) ==> out@ == cbor_of_json(input@)),
        input_format == Format::Yaml ==> (r matches Ok(out) ==> out@ == cbor_of_yaml(input@)),
        input_format == Format::Toml ==> (r matches Ok(out) ==> out@ == cbor_of_toml(input@)),
        input_format == Format::Json ==> (r is Ok <==> json_accepts(input@)),
        input_format == Format::Yaml ==> (r is Ok <==> yaml_accepts(input@)),
        input_format == Format::Toml ==> (r is Ok <==> toml_accepts(input@)),
        input_format == Format::Cbor ==> match r {
            Ok(out) => spec_decode_stream(input@) matches Some(ds) && out@ == spec_encode_items(
                ds,
            ),
            Err(e) => spec_decode_stream(input@) is None && spec_valid_prefix_len(input@)
                <= e.position <= input@.len(),
        },
        r matches Err(e) ==> e.format == input_format,
{
    match input_format {
        Format::Json => match json_text_to_cbor(input) {
            Ok(out) => Ok(out),
            Err(message) => Err(
                DecodeError {
                    format: input_format,
                    position: 0,
                    kind: DecodeErrorKind::Syntax(message),
                },
            ),
        },
        Format::Yaml => match yaml_text_to_cbor(input) {
            Ok(out) => Ok(out),
            Err(message) => Err(
                DecodeError {
                    format: input_format,
                    position: 0,
                    kind: DecodeErrorKind::Syntax(message),
                },
            ),
        },
        Format::Toml => match toml_text_to_cbor(input) {
            Ok(out) => Ok(out),
            Err(message) => Err(
                DecodeError {
                    format: input_format,
                    position: 0,
                    kind: DecodeErrorKind::Syntax(message),
                },
            ),
        },
        Format::Cbor => {
            let docs = match decode_stream(input) {
                Ok(docs) => docs,
                Err(e) => {
                    return Err(e);
                },
            };
            let ghost ms = models_of(docs@);
            let mut out: Vec<u8> = Vec::new();
            let mut i: usize = 0;
            proof {
                crate::laws::lemma_encode_items_empty(ms.take(0));
            }
            while i < docs.len()
                invariant
                    i <= docs@.len(),
                    out@ == spec_encode_items(ms.take(i as int)),
                decreases docs@.len() - i,
            {
                encode_into(&docs[i], &mut out);
                proof {
                    lemma_encode_items_snoc(ms.take(i as int), docs@[i as int].model());
                    assert(ms.take(i + 1) =~= ms.take(i as int).push(docs@[i as int].model()));
                }
                i = i + 1;
            }
            proof {
                assert(ms.take(docs@.len() as int) =~= ms);
            }
            Ok(out)
        },
    }
}

} // verus!
