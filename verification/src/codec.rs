//! The mathematical definition of the binary-compact encoding: a
//! self-delimiting, tag/length-prefixed format (the CBOR subset with
//! definite lengths, 64-bit integers and binary64 floats). The encoder
//! writes the canonical form, where every argument takes the fewest header
//! bytes; the decoder also accepts wider headers and indefinite lengths,
//! skips tags, and widens half- and single-precision floats into the
//! binary64 model.
use vstd::prelude::*;

use crate::value::ValueModel;
use vstd::arithmetic::power2::pow2;

verus! {

broadcast use vstd::std_specs::vec::group_vec_axioms, vstd::seq::group_seq_axioms;

/// 256 to the power `w`: the number of values of a `w`-byte big-endian field.
pub open spec fn pow256(w: nat) -> nat
    decreases w,
{
    if w == 0 {
        1
    } else {
        256 * pow256((w - 1) as nat)
    }
}

/// `n` written as exactly `w` big-endian bytes (modulo 256^w).
pub open spec fn spec_be_bytes(n: nat, w: nat) -> Seq<u8>
    decreases w,
{
    if w == 0 {
        Seq::empty()
    } else {
        spec_be_bytes(n / 256, (w - 1) as nat) + seq![(n % 256) as u8]
    }
}

/// The value of a big-endian byte string.
pub open spec fn spec_be_val(b: Seq<u8>) -> nat
    decreases b.len(),
{
    if b.len() == 0 {
        0
    } else {
        spec_be_val(b.drop_last()) * 256 + b.last() as nat
    }
}

/// The canonical header for major type `major` with argument `n`:
/// the shortest of the five argument widths that holds `n`.
pub open spec fn spec_header(major: nat, n: nat) -> Seq<u8> {
    if n < 24 {
        seq![(major * 32 + n) as u8]
    } else if n < 256 {
        seq![(major * 32 + 24) as u8] + spec_be_bytes(n, 1)
    } else if n < 0x1_0000 {
        seq![(major * 32 + 25) as u8] + spec_be_bytes(n, 2)
    } else if n < 0x1_0000_0000 {
        seq![(major * 32 + 26) as u8] + spec_be_bytes(n, 4)
    } else {
        seq![(major * 32 + 27) as u8] + spec_be_bytes(n, 8)
    }
}

/// The canonical encoding of one value as one self-delimiting document.
pub open spec fn spec_encode(v: ValueModel) -> Seq<u8>
    decreases v, 1nat,
{
    match v {
        ValueModel::Null => seq![0xf6u8],
        ValueModel::Bool(b) => if b {
            seq![0xf5u8]
        } else {
            seq![0xf4u8]
        },
        ValueModel::Integer(i) => if i >= 0 {
            spec_header(0, i as nat)
        } else {
            spec_header(1, (-i - 1) as nat)
        },
        ValueModel::Float(bits) => seq![0xfbu8] + spec_be_bytes(bits as nat, 8),
        ValueModel::Bytes(s) => spec_header(2, s.len()) + s,
        ValueModel::Text(s) => spec_header(3, s.len()) + s,
        ValueModel::Array(items) => spec_header(4, items.len()) + encodings_of(items).flatten(),
        ValueModel::Dict(pairs) => spec_header(5, pairs.len()) + entry_encodings_of(
            pairs,
        ).flatten(),
    }
}

/// The per-element encodings of a sequence of values.
pub open spec fn encodings_of(s: Seq<ValueModel>) -> Seq<Seq<u8>>
    decreases s, 0nat,
{
    Seq::new(
        s.len(),
        |i: int|
            if 0 <= i < s.len() {
                spec_encode(s[i])
            } else {
                Seq::empty()
            },
    )
}

/// The concatenated encodings of a sequence of values.
pub open spec fn spec_encode_items(s: Seq<ValueModel>) -> Seq<u8> {
    encodings_of(s).flatten()
}

/// The per-entry encodings (key then value) of a sequence of entries.
pub open spec fn entry_encodings_of(s: Seq<(ValueModel, ValueModel)>) -> Seq<Seq<u8>>
    decreases s, 0nat,
{
    Seq::new(
        s.len(),
        |i: int|
            if 0 <= i < s.len() {
                spec_encode(s[i].0) + spec_encode(s[i].1)
            } else {
                Seq::empty()
            },
    )
}

/// The concatenated encodings of a sequence of entries.
pub open spec fn spec_encode_entries(s: Seq<(ValueModel, ValueModel)>) -> Seq<u8> {
    entry_encodings_of(s).flatten()
}

/// The position of the highest set bit of `f`, for `f >= 1`.
pub open spec fn top_bit(f: nat) -> nat
    decreases f,
{
    if f < 2 {
        0
    } else {
        1 + top_bit(f / 2)
    }
}

/// The binary64 bit pattern holding exactly the value of the binary16 bit
/// pattern `n`: sign and NaN payloads carried over, normal numbers rebiased,
/// subnormals (value `f` times 2^-24) renormalized.
pub open spec fn spec_widen_f16(n: nat) -> nat {
    let sign = n / 0x8000;
    let e = (n / 0x400) % 0x20;
    let f = n % 0x400;
    if e == 0x1f {
        sign * 0x8000_0000_0000_0000 + 2047 * 0x10_0000_0000_0000 + f * 0x400_0000_0000
    } else if e == 0 && f == 0 {
        sign * 0x8000_0000_0000_0000
    } else if e == 0 {
        let k = top_bit(f);
        sign * 0x8000_0000_0000_0000 + (k + 999) * 0x10_0000_0000_0000 + ((f - pow2(k)) as nat) * pow2(
            (52 - k) as nat,
        )
    } else {
        sign * 0x8000_0000_0000_0000 + (e + 1008) * 0x10_0000_0000_0000 + f * 0x400_0000_0000
    }
}

/// The binary64 bit pattern holding exactly the value of the binary32 bit
/// pattern `n`: subnormals are `f` times 2^-149.
pub open spec fn spec_widen_f32(n: nat) -> nat {
    let sign = n / 0x8000_0000;
    let e = (n / 0x80_0000) % 0x100;
    let f = n % 0x80_0000;
    if e == 0xff {
        sign * 0x8000_0000_0000_0000 + 2047 * 0x10_0000_0000_0000 + f * 0x2000_0000
    } else if e == 0 && f == 0 {
        sign * 0x8000_0000_0000_0000
    } else if e == 0 {
        let k = top_bit(f);
        sign * 0x8000_0000_0000_0000 + (k + 874) * 0x10_0000_0000_0000 + ((f - pow2(k)) as nat) * pow2(
            (52 - k) as nat,
        )
    } else {
        sign * 0x8000_0000_0000_0000 + (e + 896) * 0x10_0000_0000_0000 + f * 0x2000_0000
    }
}

/// Reads the initial byte and its argument, in any of the five argument
/// widths. Returns the argument and the number of bytes consumed, or `None`
/// where the input ends early or where the additional-information bits name
/// an indefinite or reserved form.
pub open spec fn spec_read_uint(b: Seq<u8>) -> Option<(nat, nat)> {
    if b.len() == 0 {
        None
    } else {
        let info = b[0] % 32;
        if info < 24 {
            Some((info as nat, 1))
        } else if info == 24 {
            if b.len() >= 2 {
                Some((b[1] as nat, 2))
            } else {
                None
            }
        } else if info == 25 {
            if b.len() >= 3 {
                Some((spec_be_val(b.subrange(1, 3)), 3))
            } else {
                None
            }
        } else if info == 26 {
            if b.len() >= 5 {
                Some((spec_be_val(b.subrange(1, 5)), 5))
            } else {
                None
            }
        } else if info == 27 {
            if b.len() >= 9 {
                Some((spec_be_val(b.subrange(1, 9)), 9))
            } else {
                None
            }
        } else {
            None
        }
    }
}

/// Decodes the first document of `b`: the value and the bytes it occupies.
pub open spec fn spec_decode_one(b: Seq<u8>) -> Option<(ValueModel, nat)>
    decreases b.len(), 0nat,
{
    if b.len() == 0 {
        None
    } else {
        let major = b[0] / 32;
        if major == 6 {
            match spec_read_uint(b) {
                None => None,
                Some((tag, h)) => if 1 <= h <= b.len() {
                    match spec_decode_one(b.skip(h as int)) {
                        None => None,
                        Some((v, n)) => Some((v, h + n)),
                    }
                } else {
                    None
                },
            }
        } else if major == 7 {
            let info = b[0] % 32;
            if info == 20 {
                Some((ValueModel::Bool(false), 1))
            } else if info == 21 {
                Some((ValueModel::Bool(true), 1))
            } else if info == 22 {
                Some((ValueModel::Null, 1))
            } else if info == 25 {
                if b.len() >= 3 {
                    Some((ValueModel::Float(spec_widen_f16(spec_be_val(b.subrange(1, 3))) as u64), 3))
                } else {
                    None
                }
            } else if info == 26 {
                if b.len() >= 5 {
                    Some((ValueModel::Float(spec_widen_f32(spec_be_val(b.subrange(1, 5))) as u64), 5))
                } else {
                    None
                }
            } else if info == 27 {
                if b.len() >= 9 {
                    Some((ValueModel::Float(spec_be_val(b.subrange(1, 9)) as u64), 9))
                } else {
                    None
                }
            } else {
                None
            }
        } else if b[0] % 32 == 31 && major >= 2 {
            if major == 2 {
                match spec_decode_chunks(b.skip(1), 2) {
                    None => None,
                    Some((whole, m)) => if whole.len() < 0x1_0000_0000_0000_0000 {
                        Some((ValueModel::Bytes(whole), 1 + m))
                    } else {
                        None
                    },
                }
            } else if major == 3 {
                match spec_decode_chunks(b.skip(1), 3) {
                    None => None,
                    Some((whole, m)) => if whole.len() < 0x1_0000_0000_0000_0000
                        && vstd::utf8::valid_utf8(whole) {
                        Some((ValueModel::Text(whole), 1 + m))
                    } else {
                        None
                    },
                }
            } else if major == 4 {
                match spec_decode_items_brk(b.skip(1)) {
                    None => None,
                    Some((vs, m)) => if vs.len() < 0x1_0000_0000_0000_0000 {
                        Some((ValueModel::Array(vs), 1 + m))
                    } else {
                        None
                    },
                }
            } else {
                match spec_decode_entries_brk(b.skip(1)) {
                    None => None,
                    Some((es, m)) => if es.len() < 0x1_0000_0000_0000_0000 {
                        Some((ValueModel::Dict(es), 1 + m))
                    } else {
                        None
                    },
                }
            }
        } else {
            match spec_read_uint(b) {
                None => None,
                Some((n, h)) => if major == 0 {
                    if n <= 0x7fff_ffff_ffff_ffff {
                        Some((ValueModel::Integer(n as int), h))
                    } else {
                        None
                    }
                } else if major == 1 {
                    if n <= 0x7fff_ffff_ffff_ffff {
                        Some((ValueModel::Integer(-1 - n as int), h))
                    } else {
                        None
                    }
                } else if major == 2 {
                    if h + n <= b.len() {
                        Some((ValueModel::Bytes(b.subrange(h as int, (h + n) as int)), h + n))
                    } else {
                        None
                    }
                } else if major == 3 {
                    if h + n <= b.len() && vstd::utf8::valid_utf8(
                        b.subrange(h as int, (h + n) as int),
                    ) {
                        Some((ValueModel::Text(b.subrange(h as int, (h + n) as int)), h + n))
                    } else {
                        None
                    }
                } else if major == 4 {
                    if 1 <= h <= b.len() {
                        match spec_decode_items(b.skip(h as int), n) {
                            None => None,
                            Some((vs, m)) => Some((ValueModel::Array(vs), h + m)),
                        }
                    } else {
                        None
                    }
                } else {
                    // major == 5
                    if 1 <= h <= b.len() {
                        match spec_decode_entries(b.skip(h as int), n) {
                            None => None,
                            Some((es, m)) => Some((ValueModel::Dict(es), h + m)),
                        }
                    } else {
                        None
                    }
                },
            }
        }
    }
}

/// Decodes the chunks of an indefinite-length string of major type `major`:
/// definite-length strings of the same type up to a break byte, whose
/// contents concatenate.
pub open spec fn spec_decode_chunks(b: Seq<u8>, major: nat) -> Option<(Seq<u8>, nat)>
    decreases b.len(), 1nat,
{
    if b.len() == 0 {
        None
    } else if b[0] == 0xff {
        Some((Seq::empty(), 1))
    } else if b[0] / 32 == major && b[0] % 32 != 31 {
        match spec_read_uint(b) {
            None => None,
            Some((n, h)) => if 1 <= h && h + n <= b.len() {
                match spec_decode_chunks(b.skip((h + n) as int), major) {
                    None => None,
                    Some((rest, m)) => Some((b.subrange(h as int, (h + n) as int) + rest, h + n + m)),
                }
            } else {
                None
            },
        }
    } else {
        None
    }
}

/// Decodes the elements of an indefinite-length array: documents up to a
/// break byte.
pub open spec fn spec_decode_items_brk(b: Seq<u8>) -> Option<(Seq<ValueModel>, nat)>
    decreases b.len(), 1nat,
{
    if b.len() == 0 {
        None
    } else if b[0] == 0xff {
        Some((Seq::empty(), 1))
    } else {
        match spec_decode_one(b) {
            None => None,
            Some((v, n)) => if 1 <= n <= b.len() {
                match spec_decode_items_brk(b.skip(n as int)) {
                    None => None,
                    Some((vs, m)) => Some((seq![v] + vs, n + m)),
                }
            } else {
                None
            },
        }
    }
}

/// Decodes the entries of an indefinite-length map: key-value pairs up to a
/// break byte.
pub open spec fn spec_decode_entries_brk(b: Seq<u8>) -> Option<
    (Seq<(ValueModel, ValueModel)>, nat),
>
    decreases b.len(), 1nat,
{
    if b.len() == 0 {
        None
    } else if b[0] == 0xff {
        Some((Seq::empty(), 1))
    } else {
        match spec_decode_one(b) {
            None => None,
            Some((key, n1)) => if 1 <= n1 <= b.len() {
                match spec_decode_one(b.skip(n1 as int)) {
                    None => None,
                    Some((val, n2)) => if 1 <= n2 <= b.len() - n1 {
                        match spec_decode_entries_brk(b.skip((n1 + n2) as int)) {
                            None => None,
                            Some((es, m)) => Some((seq![(key, val)] + es, n1 + n2 + m)),
                        }
                    } else {
                        None
                    },
                }
            } else {
                None
            },
        }
    }
}

/// Decodes exactly `k` consecutive documents from the front of `b`.
pub open spec fn spec_decode_items(b: Seq<u8>, k: nat) -> Option<(Seq<ValueModel>, nat)>
    decreases b.len(), 1nat,
{
    if k == 0 {
        Some((Seq::empty(), 0))
    } else {
        match spec_decode_one(b) {
            None => None,
            Some((v, n)) => if 1 <= n <= b.len() {
                match spec_decode_items(b.skip(n as int), (k - 1) as nat) {
                    None => None,
                    Some((vs, m)) => Some((seq![v] + vs, n + m)),
                }
            } else {
                None
            },
        }
    }
}

/// Decodes exactly `k` consecutive key-value entries from the front of `b`.
pub open spec fn spec_decode_entries(b: Seq<u8>, k: nat) -> Option<
    (Seq<(ValueModel, ValueModel)>, nat),
>
    decreases b.len(), 1nat,
{
    if k == 0 {
        Some((Seq::empty(), 0))
    } else {
        match spec_decode_one(b) {
            None => None,
            Some((key, n1)) => if 1 <= n1 <= b.len() {
                match spec_decode_one(b.skip(n1 as int)) {
                    None => None,
                    Some((val, n2)) => if 1 <= n2 <= b.len() - n1 {
                        match spec_decode_entries(b.skip((n1 + n2) as int), (k - 1) as nat) {
                            None => None,
                            Some((es, m)) => Some((seq![(key, val)] + es, n1 + n2 + m)),
                        }
                    } else {
                        None
                    },
                }
            } else {
                None
            },
        }
    }
}

/// The offset of the stream's first failing unit: the total size of the
/// complete documents decoded before decoding stops.
pub open spec fn spec_valid_prefix_len(b: Seq<u8>) -> nat
    decreases b.len(),
{
    match spec_decode_one(b) {
        None => 0,
        Some((v, n)) => if 1 <= n <= b.len() {
            (n + spec_valid_prefix_len(b.skip(n as int))) as nat
        } else {
            0
        },
    }
}

/// Decodes a whole stream: as many documents as it holds, which must use
/// every byte. An empty stream holds no documents.
pub open spec fn spec_decode_stream(b: Seq<u8>) -> Option<Seq<ValueModel>>
    decreases b.len(),
{
    if b.len() == 0 {
        Some(Seq::empty())
    } else {
        match spec_decode_one(b) {
            None => None,
            Some((v, n)) => if 1 <= n <= b.len() {
                match spec_decode_stream(b.skip(n as int)) {
                    None => None,
                    Some(vs) => Some(seq![v] + vs),
                }
            } else {
                None
            },
        }
    }
}

} // verus!
