//! The encoding adapter and the stream converter: serialize one value per
//! call, and convert a whole binary-compact stream to a target format with a
//! caller-supplied separator written between documents — never before the
//! first nor after the last.
use vstd::prelude::*;

use crate::bridge::{
    cbor_doc_to_json, cbor_doc_to_toml, cbor_doc_to_yaml, json_bytes_of, json_ok_of,
    toml_bytes_of, toml_ok_of, yaml_bytes_of, yaml_ok_of,
};
use crate::codec::{spec_decode_stream, spec_encode, spec_valid_prefix_len};
use crate::decode::decode_stream;
use crate::encode::{encode_value, push_bytes};
use crate::error::{ConversionError, EncodeError, Format};
use crate::value::{Value, ValueModel, models_of};

verus! {

broadcast use vstd::std_specs::vec::group_vec_axioms, vstd::seq::group_seq_axioms;

/// One serialized fragment: what a value looks like in the target format.
pub open spec fn spec_fragment(format: Format, m: ValueModel) -> Seq<u8> {
    match format {
        Format::Cbor => spec_encode(m),
        Format::Json => json_bytes_of(spec_encode(m)),
        Format::Yaml => yaml_bytes_of(spec_encode(m)),
        Format::Toml => toml_bytes_of(spec_encode(m)),
    }
}

/// The fragments of `docs` joined by `sep`: the separator stands exactly
/// between consecutive documents, so it occurs exactly `docs.len() - 1`
/// times for a non-empty stream.
pub open spec fn spec_joined(format: Format, docs: Seq<ValueModel>, sep: Seq<u8>) -> Seq<u8>
    decreases docs.len(),
{
    if docs.len() == 0 {
        Seq::empty()
    } else if docs.len() == 1 {
        spec_fragment(format, docs[0])
    } else {
        spec_fragment(format, docs[0]) + sep + spec_joined(format, docs.skip(1), sep)
    }
}

/// Whether the target format accepts the value: the binary-compact target
/// accepts everything; a text target's encoder decides, as a function of the
/// value's canonical document alone.
pub open spec fn spec_fragment_ok(format: Format, m: ValueModel) -> bool {
    match format {
        Format::Cbor => true,
        Format::Json => json_ok_of(spec_encode(m)),
        Format::Yaml => yaml_ok_of(spec_encode(m)),
        Format::Toml => toml_ok_of(spec_encode(m)),
    }
}

/// The summed length of the documents' fragments.
pub open spec fn spec_fragment_total(format: Format, docs: Seq<ValueModel>) -> nat
    decreases docs.len(),
{
    if docs.len() == 0 {
        0
    } else {
        spec_fragment(format, docs[0]).len() + spec_fragment_total(format, docs.skip(1))
    }
}

/// Separator placement: converting `N` documents emits the separator exactly
/// `N - 1` times, only between documents — the joined output is exactly as
/// long as the fragments plus `N - 1` separators.
pub proof fn lemma_separator_count(format: Format, docs: Seq<ValueModel>, sep: Seq<u8>)
    requires
        docs.len() >= 1,
    ensures
        spec_joined(format, docs, sep).len() == spec_fragment_total(format, docs) + (docs.len()
            - 1) * sep.len(),
    decreases docs.len(),
{
    if docs.len() == 1 {
        assert(spec_fragment_total(format, docs.skip(1)) == 0);
    } else {
        lemma_separator_count(format, docs.skip(1), sep);
        assert((docs.len() - 2) * sep.len() + sep.len() == (docs.len() - 1) * sep.len())
            by (nonlinear_arith)
            requires
                docs.len() >= 2,
        ;
    }
}

/// Joining one more document appends one separator and one fragment.
proof fn lemma_joined_snoc(format: Format, docs: Seq<ValueModel>, m: ValueModel, sep: Seq<u8>)
    ensures
        spec_joined(format, docs.push(m), sep) == if docs.len() == 0 {
            spec_fragment(format, m)
        } else {
            spec_joined(format, docs, sep) + sep + spec_fragment(format, m)
        },
    decreases docs.len(),
{
    reveal_with_fuel(spec_joined, 3);
    let whole = docs.push(m);
    if docs.len() == 0 {
        assert(whole.len() == 1);
        assert(whole[0] == m);
    } else if docs.len() == 1 {
        assert(whole.skip(1) =~= seq![m]);
        assert(whole[0] == docs[0]);
    } else {
        assert(whole.skip(1) =~= docs.skip(1).push(m));
        lemma_joined_snoc(format, docs.skip(1), m, sep);
        assert(spec_fragment(format, whole[0]) + sep + (spec_joined(format, docs.skip(1), sep)
            + sep + spec_fragment(format, m)) =~= (spec_fragment(format, docs[0]) + sep
            + spec_joined(format, docs.skip(1), sep)) + sep + spec_fragment(format, m));
    }
}

/// Serializes exactly one value as one fragment of the target format,
/// writing no separator and no stream framing. Total for the binary-compact
/// target; for a text target the text encoder decides (it rejects, for
/// instance, a map key that is not text).
pub fn encode_value_to(format: Format, v: &Value) -> (r: Result<Vec<u8>, EncodeError>)
    ensures
        r matches Ok(out) ==> out@ == spec_fragment(format, v.model()),
        r is Ok <==> spec_fragment_ok(format, v.model()),
        r matches Err(e) ==> e.format == format && format != Format::Cbor,
{
    let doc = encode_value(v);
    match format {
        Format::Cbor => Ok(doc),
        Format::Json => match cbor_doc_to_json(&doc) {
            Ok(out) => Ok(out),
            Err(message) => Err(EncodeError { format, message }),
        },
        Format::Yaml => match cbor_doc_to_yaml(&doc) {
            Ok(out) => Ok(out),
            Err(message) => Err(EncodeError { format, message }),
        },
        Format::Toml => match cbor_doc_to_toml(&doc) {
            Ok(out) => Ok(out),
            Err(message) => Err(EncodeError { format, message }),
        },
    }
}

/// Converts a binary-compact stream to the target format: decodes one
/// document at a time, writes `delimiter` before every document after the
/// first, and stops at the first decode or encode error. On success the
/// output is exactly the documents' fragments joined by the delimiter; for
/// the binary-compact target success is owed whenever the input decodes.
#[verifier::loop_isolation(false)]
pub fn export_from_reader(format: Format, delimiter: &Vec<u8>, input: &Vec<u8>) -> (r: Result<
    Vec<u8>,
    ConversionError,
>)
    ensures
        r matches Ok(out) ==> spec_decode_stream(input@) matches Some(docs) && out@ == spec_joined(
            format,
            docs,
            delimiter@,
        ) && (forall|i: int| 0 <= i < docs.len() ==> #[trigger] spec_fragment_ok(format, docs[i])),
        r matches Err(ConversionError::Decode(e)) ==> spec_decode_stream(input@) is None
            && spec_valid_prefix_len(input@) <= e.position <= input@.len() && e.format
            == Format::Cbor,
        r matches Err(ConversionError::Encode(e)) ==> spec_decode_stream(input@) matches Some(docs)
            && e.format == format && format != Format::Cbor && (exists|i: int|
            0 <= i < docs.len() && !#[trigger] spec_fragment_ok(format, docs[i])),
        (spec_decode_stream(input@) matches Some(docs) && (forall|i: int|
            0 <= i < docs.len() ==> #[trigger] spec_fragment_ok(format, docs[i]))) ==> r is Ok,
{
    let docs = match decode_stream(input) {
        Ok(docs) => docs,
        Err(e) => {
            return Err(ConversionError::Decode(e));
        },
    };
    let ghost ms = models_of(docs@);
    let mut out: Vec<u8> = Vec::new();
    let mut i: usize = 0;
    while i < docs.len()
        invariant
            i <= docs@.len(),
            out@ == spec_joined(format, ms.take(i as int), delimiter@),
            forall|k: int| 0 <= k < i ==> #[trigger] spec_fragment_ok(format, ms[k]),
        decreases docs@.len() - i,
    {
        let fragment = match encode_value_to(format, &docs[i]) {
            Ok(f) => f,
            Err(e) => {
                proof {
                    let sdocs = spec_decode_stream(input@)->Some_0;
                    assert(sdocs == ms);
                    assert(sdocs[i as int] == docs@[i as int].model());
                    assert(!spec_fragment_ok(format, sdocs[i as int]));
                }
                return Err(ConversionError::Encode(e));
            },
        };
        if i > 0 {
            push_bytes(&mut out, delimiter);
        }
        push_bytes(&mut out, &fragment);
        proof {
            lemma_joined_snoc(format, ms.take(i as int), docs@[i as int].model(), delimiter@);
            assert(ms.take(i + 1) =~= ms.take(i as int).push(docs@[i as int].model()));
        }
        i = i + 1;
    }
    proof {
        assert(ms.take(docs@.len() as int) =~= ms);
    }
    Ok(out)
}

} // verus!
