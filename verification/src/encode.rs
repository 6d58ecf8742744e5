//! The binary-compact encoder: writes exactly the canonical byte string that
//! `spec_encode` defines, for any value.
use vstd::prelude::*;

use crate::codec::{
    spec_be_bytes, spec_encode, spec_encode_entries, spec_encode_items, spec_header, encodings_of,
    entry_encodings_of,
};
use crate::value::{Value, ValueModel, models_of, entry_models_of};

verus! {

broadcast use vstd::std_specs::vec::group_vec_axioms, vstd::seq::group_seq_axioms;

/// Item encodings grow one element at a time.
pub(crate) proof fn lemma_encode_items_snoc(s: Seq<ValueModel>, x: ValueModel)
    ensures
        spec_encode_items(s.push(x)) == spec_encode_items(s) + spec_encode(x),
{
    broadcast use vstd::seq::Seq::lemma_flatten_push;

    assert(encodings_of(s.push(x)) =~= encodings_of(s).push(spec_encode(x)));
}

/// Entry encodings grow one entry at a time.
proof fn lemma_encode_entries_snoc(s: Seq<(ValueModel, ValueModel)>, x: (ValueModel, ValueModel))
    ensures
        spec_encode_entries(s.push(x)) == spec_encode_entries(s) + spec_encode(x.0) + spec_encode(
            x.1,
        ),
{
    broadcast use vstd::seq::Seq::lemma_flatten_push;

    assert(entry_encodings_of(s.push(x)) =~= entry_encodings_of(s).push(
        spec_encode(x.0) + spec_encode(x.1),
    ));
}

/// Appends `n` as exactly `w` big-endian bytes.
fn push_be(out: &mut Vec<u8>, n: u64, w: u8)
    ensures
        final(out)@ == old(out)@ + spec_be_bytes(n as nat, w as nat),
    decreases w,
{
    if w == 0 {
        assert(out@ =~= old(out)@ + spec_be_bytes(n as nat, 0));
    } else {
        push_be(out, n / 256, w - 1);
        out.push((n % 256) as u8);
        assert(out@ =~= old(out)@ + (spec_be_bytes(n as nat / 256, (w - 1) as nat) + seq![
            (n as nat % 256) as u8,
        ]));
    }
}

/// Appends the canonical header for `major` with argument `n`.
fn push_header(out: &mut Vec<u8>, major: u8, n: u64)
    requires
        major < 8,
    ensures
        final(out)@ == old(out)@ + spec_header(major as nat, n as nat),
{
    let lead: u8 = major * 32;
    if n < 24 {
        out.push(lead + n as u8);
        assert(out@ =~= old(out)@ + seq![((major * 32 + n) as nat) as u8]);
    } else if n < 256 {
        out.push(lead + 24);
        push_be(out, n, 1);
        assert(out@ =~= old(out)@ + (seq![((major * 32 + 24) as nat) as u8] + spec_be_bytes(
            n as nat,
            1,
        )));
    } else if n < 0x1_0000 {
        out.push(lead + 25);
        push_be(out, n, 2);
        assert(out@ =~= old(out)@ + (seq![((major * 32 + 25) as nat) as u8] + spec_be_bytes(
            n as nat,
            2,
        )));
    } else if n < 0x1_0000_0000 {
        out.push(lead + 26);
        push_be(out, n, 4);
        assert(out@ =~= old(out)@ + (seq![((major * 32 + 26) as nat) as u8] + spec_be_bytes(
            n as nat,
            4,
        )));
    } else {
        out.push(lead + 27);
        push_be(out, n, 8);
        assert(out@ =~= old(out)@ + (seq![((major * 32 + 27) as nat) as u8] + spec_be_bytes(
            n as nat,
            8,
        )));
    }
}

/// Appends the whole byte string `b`.
pub(crate) fn push_bytes(out: &mut Vec<u8>, b: &Vec<u8>)
    ensures
        final(out)@ == old(out)@ + b@,
{
    let mut i: usize = 0;
    while i < b.len()
        invariant
            i <= b@.len(),
            out@ == old(out)@ + b@.take(i as int),
        decreases b@.len() - i,
    {
        out.push(b[i]);
        assert(b@.take(i + 1) =~= b@.take(i as int).push(b@[i as int]));
        i = i + 1;
    }
    assert(b@.take(b@.len() as int) =~= b@);
}

/// Appends the canonical encoding of `v`.
#[verifier::loop_isolation(false)]
pub fn encode_into(v: &Value, out: &mut Vec<u8>)
    ensures
        final(out)@ == old(out)@ + spec_encode(v.model()),
    decreases *v,
{
    match v {
        Value::Null => {
            out.push(0xf6);
            assert(out@ =~= old(out)@ + seq![0xf6u8]);
        },
        Value::Bool(b) => {
            out.push(if *b {
                0xf5
            } else {
                0xf4
            });
            assert(out@ =~= old(out)@ + spec_encode(v.model()));
        },
        Value::Integer(i) => {
            if *i >= 0 {
                push_header(out, 0, *i as u64);
            } else {
                push_header(out, 1, (-1 - *i) as u64);
            }
        },
        Value::Float(bits) => {
            out.push(0xfb);
            push_be(out, *bits, 8);
            assert(out@ =~= old(out)@ + (seq![0xfbu8] + spec_be_bytes(*bits as nat, 8)));
        },
        Value::Bytes(b) => {
            push_header(out, 2, b.len() as u64);
            push_bytes(out, b);
            assert(out@ =~= old(out)@ + (spec_header(2, b@.len()) + b@));
        },
        Value::Text(b) => {
            push_header(out, 3, b.len() as u64);
            push_bytes(out, b);
            assert(out@ =~= old(out)@ + (spec_header(3, b@.len()) + b@));
        },
        Value::Array(items) => {
            push_header(out, 4, items.len() as u64);
            let ghost head = old(out)@ + spec_header(4, items@.len());
            let mut i: usize = 0;
            while i < items.len()
                invariant
                    i <= items@.len(),
                    out@ == head + spec_encode_items(models_of(items@).take(i as int)),
                decreases items@.len() - i,
            {
                let item = &items[i];
                proof {
                    assert(decreases_to!(*v => *items));
                    assert(decreases_to!(*items => items@));
                    assert(decreases_to!(items@ => items@[i as int]));
                }
                encode_into(item, out);
                proof {
                    lemma_encode_items_snoc(
                        models_of(items@).take(i as int),
                        items@[i as int].model(),
                    );
                    assert(models_of(items@).take(i + 1) =~= models_of(items@).take(
                        i as int,
                    ).push(items@[i as int].model()));
                }
                i = i + 1;
            }
            proof {
                assert(models_of(items@).take(items@.len() as int) =~= models_of(items@));
            }
        },
        Value::Dict(pairs) => {
            push_header(out, 5, pairs.len() as u64);
            let ghost head = old(out)@ + spec_header(5, pairs@.len());
            let mut i: usize = 0;
            while i < pairs.len()
                invariant
                    i <= pairs@.len(),
                    out@ == head + spec_encode_entries(entry_models_of(pairs@).take(i as int)),
                decreases pairs@.len() - i,
            {
                let key = &pairs[i].0;
                proof {
                    assert(decreases_to!(*v => *pairs));
                    assert(decreases_to!(*pairs => pairs@));
                    assert(decreases_to!(pairs@ => pairs@[i as int]));
                    assert(decreases_to!(pairs@[i as int] => pairs@[i as int].0));
                    assert(decreases_to!(pairs@[i as int] => pairs@[i as int].1));
                }
                encode_into(key, out);
                let val = &pairs[i].1;
                encode_into(val, out);
                proof {
                    lemma_encode_entries_snoc(
                        entry_models_of(pairs@).take(i as int),
                        (pairs@[i as int].0.model(), pairs@[i as int].1.model()),
                    );
                    assert(entry_models_of(pairs@).take(i + 1) =~= entry_models_of(pairs@).take(
                        i as int,
                    ).push((pairs@[i as int].0.model(), pairs@[i as int].1.model())));
                }
                i = i + 1;
            }
            proof {
                assert(entry_models_of(pairs@).take(pairs@.len() as int) =~= entry_models_of(
                    pairs@,
                ));
            }
        },
    }
}

/// Encodes one value as one binary-compact document. Total: every value has
/// a canonical encoding.
pub fn encode_value(v: &Value) -> (r: Vec<u8>)
    ensures
        r@ == spec_encode(v.model()),
{
    let mut out: Vec<u8> = Vec::new();
    encode_into(v, &mut out);
    out
}

} // verus!
