//! The binary-compact decoder: reads one self-delimiting document at a time,
//! leaving the cursor at the start of the next one, and reports the first
//! malformed unit as a terminal error carrying a byte offset. Arguments in
//! any header width and indefinite lengths are accepted, tags are noted and
//! skipped, and half- and single-precision floats are widened losslessly
//! into the binary64 model.
use vstd::prelude::*;

use crate::codec::{
    pow256, spec_be_val, spec_decode_chunks, spec_decode_entries, spec_decode_entries_brk,
    spec_decode_items, spec_decode_items_brk, spec_decode_one, spec_decode_stream, spec_read_uint,
    spec_valid_prefix_len, spec_widen_f16, spec_widen_f32, top_bit,
};
use crate::encode::push_bytes;
use crate::laws::{
    lemma_pow2_add, lemma_pow2_mono, lemma_pow2_vals, lemma_top_bit_bound, lemma_top_bit_bracket,
};
use vstd::arithmetic::power2::{lemma_pow2_unfold, pow2};
use crate::error::{DecodeError, DecodeErrorKind, Format};
use crate::value::{Value, models_of, entry_models_of};

verus! {

broadcast use vstd::std_specs::vec::group_vec_axioms, vstd::seq::group_seq_axioms;

/// Relies on `core::str::from_utf8`, which accepts exactly the byte strings
/// that are valid UTF-8 in the sense of `vstd::utf8::valid_utf8`.
#[verifier::external_body]
fn utf8_valid(b: &Vec<u8>) -> (r: bool)
    ensures
        r == vstd::utf8::valid_utf8(b@),
{
    core::str::from_utf8(b.as_slice()).is_ok()
}

/// An end-of-input error at the end of the stream.
fn err_eof(format: Format, position: usize) -> (r: DecodeError)
    ensures
        r == (DecodeError { format, position, kind: DecodeErrorKind::UnexpectedEnd }),
{
    DecodeError { format, position, kind: DecodeErrorKind::UnexpectedEnd }
}

/// Reads `w` big-endian bytes starting at `start`.
#[verifier::loop_isolation(false)]
fn read_be(bytes: &Vec<u8>, start: usize, w: usize) -> (r: u64)
    requires
        start + w <= bytes@.len(),
        w <= 8,
    ensures
        r as nat == spec_be_val(bytes@.subrange(start as int, (start + w) as int)),
{
    proof {
        reveal_with_fuel(pow256, 9);
    }
    let blen: usize = bytes.len();
    let mut val: u64 = 0;
    let mut j: usize = 0;
    while j < w
        invariant
            j <= w,
            val as nat == spec_be_val(bytes@.subrange(start as int, (start + j) as int)),
            (val as nat) < pow256(j as nat),
        decreases w - j,
    {
        let b = bytes[start + j];
        proof {
            let sub1 = bytes@.subrange(start as int, (start + j + 1) as int);
            assert(sub1.drop_last() =~= bytes@.subrange(start as int, (start + j) as int));
            assert(sub1.last() == bytes@[(start + j) as int]);
            assert((val as nat) * 256 + 256 <= pow256((j + 1) as nat)) by (nonlinear_arith)
                requires
                    (val as nat) < pow256(j as nat),
                    pow256((j + 1) as nat) == 256 * pow256(j as nat),
            ;
        }
        val = val * 256 + (b as u64);
        j = j + 1;
    }
    val
}

/// The position of the highest set bit.
#[verifier::loop_isolation(false)]
fn top_bit_exec(f: u64) -> (r: usize)
    requires
        1 <= f < 0x80_0000,
    ensures
        r == top_bit(f as nat),
        r <= 22,
{
    proof {
        lemma_pow2_vals();
        lemma_top_bit_bound(f as nat, 23);
    }
    let mut x: u64 = f;
    let mut r: usize = 0;
    while x >= 2
        invariant
            x >= 1,
            top_bit(f as nat) == r + top_bit(x as nat),
        decreases x,
    {
        x = x / 2;
        r = r + 1;
    }
    r
}

/// 2 to the power `k`, as a machine word.
#[verifier::loop_isolation(false)]
fn pow2_exec(k: usize) -> (r: u64)
    requires
        k <= 52,
    ensures
        r as nat == pow2(k as nat),
{
    proof {
        lemma_pow2_vals();
        vstd::arithmetic::power2::lemma2_to64();
    }
    let mut r: u64 = 1;
    let mut j: usize = 0;
    while j < k
        invariant
            j <= k,
            r as nat == pow2(j as nat),
        decreases k - j,
    {
        proof {
            lemma_pow2_unfold(j as nat + 1);
            lemma_pow2_mono(j as nat + 1, 52);
        }
        r = r * 2;
        j = j + 1;
    }
    r
}

/// The normalized binary64 bits of a subnormal fraction `f` whose unit is
/// 2^(`scale` - 1075): the shared tail of the two widenings.
#[verifier::loop_isolation(false)]
fn widen_subnormal(sign: u64, f: u64, scale: u64) -> (r: u64)
    requires
        sign <= 1,
        1 <= f < 0x80_0000,
        scale == 999 || scale == 874,
    ensures
        r as nat == sign * 0x8000_0000_0000_0000 + (top_bit(f as nat) + scale) * 0x10_0000_0000_0000
            + ((f - pow2(top_bit(f as nat))) as nat) * pow2((52 - top_bit(f as nat)) as nat),
{
    proof {
        lemma_pow2_vals();
        lemma_top_bit_bracket(f as nat);
    }
    let k = top_bit_exec(f);
    let p = pow2_exec(k);
    let q = pow2_exec(52 - k);
    proof {
        lemma_pow2_mono(0, (52 - k) as nat);
        lemma_pow2_unfold((k + 1) as nat);
        assert(((f - p) as nat) < (p as nat));
        lemma_pow2_add(k as nat, (52 - k) as nat);
        assert(((f - p) as nat) * (q as nat) < (p as nat) * (q as nat)) by (nonlinear_arith)
            requires
                ((f - p) as nat) < (p as nat),
                (q as nat) >= 1,
        ;
        assert((p as nat) * (q as nat) == pow2(52));
    }
    sign * 0x8000_0000_0000_0000 + ((k as u64) + scale) * 0x10_0000_0000_0000 + (f - p) * q
}

/// The binary64 bits holding exactly the binary16 value `n`.
fn widen_f16(n: u64) -> (r: u64)
    requires
        n < 0x1_0000,
    ensures
        r as nat == spec_widen_f16(n as nat),
{
    let sign: u64 = n / 0x8000;
    let e: u64 = (n / 0x400) % 0x20;
    let f: u64 = n % 0x400;
    if e == 0x1f {
        sign * 0x8000_0000_0000_0000 + 2047 * 0x10_0000_0000_0000 + f * 0x400_0000_0000
    } else if e == 0 && f == 0 {
        sign * 0x8000_0000_0000_0000
    } else if e == 0 {
        widen_subnormal(sign, f, 999)
    } else {
        sign * 0x8000_0000_0000_0000 + (e + 1008) * 0x10_0000_0000_0000 + f * 0x400_0000_0000
    }
}

/// The binary64 bits holding exactly the binary32 value `n`.
fn widen_f32(n: u64) -> (r: u64)
    requires
        n < 0x1_0000_0000,
    ensures
        r as nat == spec_widen_f32(n as nat),
{
    let sign: u64 = n / 0x8000_0000;
    let e: u64 = (n / 0x80_0000) % 0x100;
    let f: u64 = n % 0x80_0000;
    if e == 0xff {
        sign * 0x8000_0000_0000_0000 + 2047 * 0x10_0000_0000_0000 + f * 0x2000_0000
    } else if e == 0 && f == 0 {
        sign * 0x8000_0000_0000_0000
    } else if e == 0 {
        widen_subnormal(sign, f, 874)
    } else {
        sign * 0x8000_0000_0000_0000 + (e + 896) * 0x10_0000_0000_0000 + f * 0x2000_0000
    }
}

/// Reads the initial byte at `pos` and its argument, in any of the five
/// argument widths.
fn read_uint(bytes: &Vec<u8>, pos: usize) -> (r: Result<(u64, usize), DecodeError>)
    requires
        pos < bytes@.len(),
    ensures
        match r {
            Ok((n, end)) => {
                &&& pos < end <= bytes@.len()
                &&& spec_read_uint(bytes@.skip(pos as int)) == Some((
                    n as nat,
                    (end - pos) as nat,
                ))
            },
            Err(e) => {
                &&& spec_read_uint(bytes@.skip(pos as int)) is None
                &&& pos <= e.position <= bytes@.len()
                &&& e.format == Format::Cbor
            },
        },
{
    let ghost b = bytes@.skip(pos as int);
    let blen: usize = bytes.len();
    assert(b[0] == bytes@[pos as int]);
    let info: u8 = bytes[pos] % 32;
    if info < 24 {
        Ok(((info as u64), pos + 1))
    } else if info == 24 {
        if bytes.len() - pos < 2 {
            assert(b.len() < 2);
            return Err(err_eof(Format::Cbor, bytes.len()));
        }
        let x = bytes[pos + 1];
        assert(b[1] == bytes@[pos + 1]);
        Ok(((x as u64), pos + 2))
    } else if info == 25 {
        if bytes.len() - pos < 3 {
            assert(b.len() < 3);
            return Err(err_eof(Format::Cbor, bytes.len()));
        }
        let v = read_be(bytes, pos + 1, 2);
        assert(b.subrange(1, 3) =~= bytes@.subrange(pos + 1 as int, pos + 3 as int));
        Ok((v, pos + 3))
    } else if info == 26 {
        if bytes.len() - pos < 5 {
            assert(b.len() < 5);
            return Err(err_eof(Format::Cbor, bytes.len()));
        }
        let v = read_be(bytes, pos + 1, 4);
        assert(b.subrange(1, 5) =~= bytes@.subrange(pos + 1 as int, pos + 5 as int));
        Ok((v, pos + 5))
    } else if info == 27 {
        if bytes.len() - pos < 9 {
            assert(b.len() < 9);
            return Err(err_eof(Format::Cbor, bytes.len()));
        }
        let v = read_be(bytes, pos + 1, 8);
        assert(b.subrange(1, 9) =~= bytes@.subrange(pos + 1 as int, pos + 9 as int));
        Ok((v, pos + 9))
    } else {
        Err(
            DecodeError {
                format: Format::Cbor,
                position: pos,
                kind: DecodeErrorKind::UnsupportedTypeByte,
            },
        )
    }
}

/// Copies `bytes[start .. start + n]` into a fresh vector.
#[verifier::loop_isolation(false)]
fn copy_range(bytes: &Vec<u8>, start: usize, n: usize) -> (r: Vec<u8>)
    requires
        start + n <= bytes@.len(),
    ensures
        r@ == bytes@.subrange(start as int, (start + n) as int),
{
    let blen: usize = bytes.len();
    let mut out: Vec<u8> = Vec::new();
    let mut j: usize = 0;
    while j < n
        invariant
            j <= n,
            out@ == bytes@.subrange(start as int, (start + j) as int),
        decreases n - j,
    {
        out.push(bytes[start + j]);
        assert(out@ =~= bytes@.subrange(start as int, (start + j + 1) as int));
        j = j + 1;
    }
    out
}

/// Decodes a simple value or a float: the major-7 forms.
fn decode_simple_at(bytes: &Vec<u8>, pos: usize) -> (r: Result<(Value, usize), DecodeError>)
    requires
        pos < bytes@.len(),
        bytes@[pos as int] / 32 == 7,
    ensures
        match r {
            Ok((v, end)) => {
                &&& pos < end <= bytes@.len()
                &&& spec_decode_one(bytes@.skip(pos as int)) == Some((
                    v.model(),
                    (end - pos) as nat,
                ))
            },
            Err(e) => {
                &&& spec_decode_one(bytes@.skip(pos as int)) is None
                &&& pos <= e.position <= bytes@.len()
                &&& e.format == Format::Cbor
            },
        },
    decreases bytes@.len() - pos, 0nat,
{
    let ghost b = bytes@.skip(pos as int);
    let blen: usize = bytes.len();
    assert(b[0] == bytes@[pos as int]);
    let b0 = bytes[pos];
    let info: u8 = b0 % 32;
        let info: u8 = b0 % 32;
        if info == 20 {
            Ok((Value::Bool(false), pos + 1))
        } else if info == 21 {
            Ok((Value::Bool(true), pos + 1))
        } else if info == 22 {
            Ok((Value::Null, pos + 1))
        } else if info == 25 {
            if bytes.len() - pos < 3 {
                assert(b.len() < 3);
                return Err(err_eof(Format::Cbor, bytes.len()));
            }
            let half = read_be(bytes, pos + 1, 2);
            assert(b.subrange(1, 3) =~= bytes@.subrange(pos + 1 as int, pos + 3 as int));
            proof {
                crate::laws::lemma_pow256_vals();
                crate::laws::lemma_be_val_bound(b.subrange(1, 3));
            }
            let bits = widen_f16(half);
            Ok((Value::Float(bits), pos + 3))
        } else if info == 26 {
            if bytes.len() - pos < 5 {
                assert(b.len() < 5);
                return Err(err_eof(Format::Cbor, bytes.len()));
            }
            let single = read_be(bytes, pos + 1, 4);
            assert(b.subrange(1, 5) =~= bytes@.subrange(pos + 1 as int, pos + 5 as int));
            proof {
                crate::laws::lemma_pow256_vals();
                crate::laws::lemma_be_val_bound(b.subrange(1, 5));
            }
            let bits = widen_f32(single);
            Ok((Value::Float(bits), pos + 5))
        } else if info == 27 {
            if bytes.len() - pos < 9 {
                assert(b.len() < 9);
                return Err(err_eof(Format::Cbor, bytes.len()));
            }
            let bits = read_be(bytes, pos + 1, 8);
            assert(b.subrange(1, 9) =~= bytes@.subrange(pos + 1 as int, pos + 9 as int));
            proof {
                crate::laws::lemma_pow256_vals();
                crate::laws::lemma_be_val_bound(b.subrange(1, 9));
            }
            Ok((Value::Float(bits), pos + 9))
        } else {
            Err(
                DecodeError {
                    format: Format::Cbor,
                    position: pos,
                    kind: DecodeErrorKind::UnsupportedTypeByte,
                },
            )
        }
}

/// Decodes an indefinite-length string, array or map.
fn decode_indefinite_at(bytes: &Vec<u8>, pos: usize) -> (r: Result<(Value, usize), DecodeError>)
    requires
        pos < bytes@.len(),
        2 <= bytes@[pos as int] / 32 <= 5,
        bytes@[pos as int] % 32 == 31,
    ensures
        match r {
            Ok((v, end)) => {
                &&& pos < end <= bytes@.len()
                &&& spec_decode_one(bytes@.skip(pos as int)) == Some((
                    v.model(),
                    (end - pos) as nat,
                ))
            },
            Err(e) => {
                &&& spec_decode_one(bytes@.skip(pos as int)) is None
                &&& pos <= e.position <= bytes@.len()
                &&& e.format == Format::Cbor
            },
        },
    decreases bytes@.len() - pos, 0nat,
{
    let ghost b = bytes@.skip(pos as int);
    let blen: usize = bytes.len();
    assert(b[0] == bytes@[pos as int]);
    let b0 = bytes[pos];
    let major: u8 = b0 / 32;
    {
        if major == 2 || major == 3 {
            match decode_chunks_at(bytes, pos + 1, major) {
                Ok((content, end)) => {
                    let clen: usize = content.len();
                    assert(b.skip(1) =~= bytes@.skip(pos + 1 as int));
                    assert(content@.len() == clen && clen < 0x1_0000_0000_0000_0000);
                    if major == 2 {
                        Ok((Value::Bytes(content), end))
                    } else {
                        if utf8_valid(&content) {
                            Ok((Value::Text(content), end))
                        } else {
                            Err(
                                DecodeError {
                                    format: Format::Cbor,
                                    position: pos,
                                    kind: DecodeErrorKind::InvalidUtf8,
                                },
                            )
                        }
                    }
                },
                Err(e) => {
                    assert(b.skip(1) =~= bytes@.skip(pos + 1 as int));
                    Err(e)
                },
            }
        } else if major == 4 {
            match decode_items_brk_at(bytes, pos + 1) {
                Ok((items, end)) => {
                    let ilen: usize = items.len();
                    assert(b.skip(1) =~= bytes@.skip(pos + 1 as int));
                    assert(models_of(items@).len() == ilen && ilen < 0x1_0000_0000_0000_0000);
                    Ok((Value::Array(items), end))
                },
                Err(e) => {
                    assert(b.skip(1) =~= bytes@.skip(pos + 1 as int));
                    Err(e)
                },
            }
        } else {
            match decode_entries_brk_at(bytes, pos + 1) {
                Ok((pairs, end)) => {
                    let plen: usize = pairs.len();
                    assert(b.skip(1) =~= bytes@.skip(pos + 1 as int));
                    assert(entry_models_of(pairs@).len() == plen && plen < 0x1_0000_0000_0000_0000);
                    Ok((Value::Dict(pairs), end))
                },
                Err(e) => {
                    assert(b.skip(1) =~= bytes@.skip(pos + 1 as int));
                    Err(e)
                },
            }
        }
    }
}

/// Decodes the document that starts at `pos`. On success the returned cursor
/// sits just past the bytes the document occupied: at the start of the next
/// document or at end of stream. On failure the error's position is at or
/// before the end of the stream, and at or after `pos`.
#[verifier::rlimit(100)]
pub fn decode_at(bytes: &Vec<u8>, pos: usize) -> (r: Result<(Value, usize), DecodeError>)
    requires
        pos <= bytes@.len(),
    ensures
        match r {
            Ok((v, end)) => {
                &&& pos < end <= bytes@.len()
                &&& spec_decode_one(bytes@.skip(pos as int)) == Some((
                    v.model(),
                    (end - pos) as nat,
                ))
            },
            Err(e) => {
                &&& spec_decode_one(bytes@.skip(pos as int)) is None
                &&& pos <= e.position <= bytes@.len()
                &&& e.format == Format::Cbor
            },
        },
    decreases bytes@.len() - pos, 1nat,
{
    let ghost b = bytes@.skip(pos as int);
    if pos == bytes.len() {
        return Err(err_eof(Format::Cbor, pos));
    }
    assert(b[0] == bytes@[pos as int]);
    let b0 = bytes[pos];
    let major: u8 = b0 / 32;
    if major == 6 {
        // A tag: note its argument and yield the tagged value itself.
        let (_tag, hend) = match read_uint(bytes, pos) {
            Ok(p) => p,
            Err(e) => {
                return Err(e);
            },
        };
        match decode_at(bytes, hend) {
            Ok((v, end)) => {
                assert(b.skip(hend - pos) =~= bytes@.skip(hend as int));
                Ok((v, end))
            },
            Err(e) => {
                assert(b.skip(hend - pos) =~= bytes@.skip(hend as int));
                Err(e)
            },
        }
    } else if major == 7 {
        decode_simple_at(bytes, pos)
    } else if b0 % 32 == 31 && major >= 2 {
        decode_indefinite_at(bytes, pos)
    } else {
        let (n, hend) = match read_uint(bytes, pos) {
            Ok(p) => p,
            Err(e) => {
                return Err(e);
            },
        };
        if major == 0 {
            if n <= 0x7fff_ffff_ffff_ffff {
                Ok((Value::Integer(n as i64), hend))
            } else {
                Err(
                    DecodeError {
                        format: Format::Cbor,
                        position: pos,
                        kind: DecodeErrorKind::IntegerOverflow,
                    },
                )
            }
        } else if major == 1 {
            if n <= 0x7fff_ffff_ffff_ffff {
                let i: i64 = -1 - (n as i64);
                Ok((Value::Integer(i), hend))
            } else {
                Err(
                    DecodeError {
                        format: Format::Cbor,
                        position: pos,
                        kind: DecodeErrorKind::IntegerOverflow,
                    },
                )
            }
        } else if major == 2 || major == 3 {
            if n > (bytes.len() - hend) as u64 {
                assert((hend - pos) + n > b.len());
                return Err(err_eof(Format::Cbor, bytes.len()));
            }
            let len_us: usize = n as usize;
            let content = copy_range(bytes, hend, len_us);
            assert(content@ =~= b.subrange(hend - pos, hend - pos + n as int));
            if major == 2 {
                Ok((Value::Bytes(content), hend + len_us))
            } else {
                if utf8_valid(&content) {
                    Ok((Value::Text(content), hend + len_us))
                } else {
                    Err(
                        DecodeError {
                            format: Format::Cbor,
                            position: pos,
                            kind: DecodeErrorKind::InvalidUtf8,
                        },
                    )
                }
            }
        } else if major == 4 {
            match decode_items_at(bytes, hend, n) {
                Ok((items, end)) => {
                    assert(b.skip(hend - pos) =~= bytes@.skip(hend as int));
                    Ok((Value::Array(items), end))
                },
                Err(e) => {
                    assert(b.skip(hend - pos) =~= bytes@.skip(hend as int));
                    Err(e)
                },
            }
        } else {
            match decode_entries_at(bytes, hend, n) {
                Ok((pairs, end)) => {
                    assert(b.skip(hend - pos) =~= bytes@.skip(hend as int));
                    Ok((Value::Dict(pairs), end))
                },
                Err(e) => {
                    assert(b.skip(hend - pos) =~= bytes@.skip(hend as int));
                    Err(e)
                },
            }
        }
    }
}

/// Decodes exactly `count` consecutive documents starting at `pos`.
fn decode_items_at(bytes: &Vec<u8>, pos: usize, count: u64) -> (r: Result<
    (Vec<Value>, usize),
    DecodeError,
>)
    requires
        pos <= bytes@.len(),
    ensures
        match r {
            Ok((vs, end)) => {
                &&& pos <= end <= bytes@.len()
                &&& spec_decode_items(bytes@.skip(pos as int), count as nat) == Some((
                    models_of(vs@),
                    (end - pos) as nat,
                ))
            },
            Err(e) => {
                &&& spec_decode_items(bytes@.skip(pos as int), count as nat) is None
                &&& pos <= e.position <= bytes@.len()
                &&& e.format == Format::Cbor
            },
        },
    decreases bytes@.len() - pos, 2nat, count,
{
    let ghost b = bytes@.skip(pos as int);
    if count == 0 {
        let vs: Vec<Value> = Vec::new();
        assert(models_of(vs@) =~= Seq::<crate::value::ValueModel>::empty());
        return Ok((vs, pos));
    }
    let (v, mid) = match decode_at(bytes, pos) {
        Ok(p) => p,
        Err(e) => {
            return Err(e);
        },
    };
    assert(b.skip(mid - pos) =~= bytes@.skip(mid as int));
    match decode_items_at(bytes, mid, count - 1) {
        Ok((mut vs, end)) => {
            let ghost tail_models = models_of(vs@);
            vs.insert(0, v);
            assert(models_of(vs@) =~= seq![v.model()] + tail_models);
            Ok((vs, end))
        },
        Err(e) => Err(e),
    }
}

/// Decodes exactly `count` consecutive key-value entries starting at `pos`.
fn decode_entries_at(bytes: &Vec<u8>, pos: usize, count: u64) -> (r: Result<
    (Vec<(Value, Value)>, usize),
    DecodeError,
>)
    requires
        pos <= bytes@.len(),
    ensures
        match r {
            Ok((es, end)) => {
                &&& pos <= end <= bytes@.len()
                &&& spec_decode_entries(bytes@.skip(pos as int), count as nat) == Some((
                    entry_models_of(es@),
                    (end - pos) as nat,
                ))
            },
            Err(e) => {
                &&& spec_decode_entries(bytes@.skip(pos as int), count as nat) is None
                &&& pos <= e.position <= bytes@.len()
                &&& e.format == Format::Cbor
            },
        },
    decreases bytes@.len() - pos, 2nat, count,
{
    let ghost b = bytes@.skip(pos as int);
    if count == 0 {
        let es: Vec<(Value, Value)> = Vec::new();
        assert(entry_models_of(es@) =~= Seq::<(
            crate::value::ValueModel,
            crate::value::ValueModel,
        )>::empty());
        return Ok((es, pos));
    }
    let (key, mid1) = match decode_at(bytes, pos) {
        Ok(p) => p,
        Err(e) => {
            return Err(e);
        },
    };
    assert(b.skip(mid1 - pos) =~= bytes@.skip(mid1 as int));
    let (val, mid2) = match decode_at(bytes, mid1) {
        Ok(p) => p,
        Err(e) => {
            return Err(e);
        },
    };
    assert(b.skip(mid2 - pos) =~= bytes@.skip(mid2 as int));
    match decode_entries_at(bytes, mid2, count - 1) {
        Ok((mut es, end)) => {
            let ghost tail_models = entry_models_of(es@);
            es.insert(0, (key, val));
            assert(entry_models_of(es@) =~= seq![(key.model(), val.model())] + tail_models);
            Ok((es, end))
        },
        Err(e) => Err(e),
    }
}

/// Decodes the chunks of an indefinite-length string starting at `pos`, up
/// to its break byte.
fn decode_chunks_at(bytes: &Vec<u8>, pos: usize, major: u8) -> (r: Result<
    (Vec<u8>, usize),
    DecodeError,
>)
    requires
        pos <= bytes@.len(),
    ensures
        match r {
            Ok((s, end)) => {
                &&& pos < end <= bytes@.len()
                &&& spec_decode_chunks(bytes@.skip(pos as int), major as nat) == Some((
                    s@,
                    (end - pos) as nat,
                ))
            },
            Err(e) => {
                &&& spec_decode_chunks(bytes@.skip(pos as int), major as nat) is None
                &&& pos <= e.position <= bytes@.len()
                &&& e.format == Format::Cbor
            },
        },
    decreases bytes@.len() - pos, 2nat,
{
    let ghost b = bytes@.skip(pos as int);
    if pos == bytes.len() {
        return Err(err_eof(Format::Cbor, pos));
    }
    assert(b[0] == bytes@[pos as int]);
    let b0 = bytes[pos];
    if b0 == 0xff {
        let s: Vec<u8> = Vec::new();
        assert(s@ =~= Seq::<u8>::empty());
        return Ok((s, pos + 1));
    }
    if !(b0 / 32 == major && b0 % 32 != 31) {
        return Err(
            DecodeError {
                format: Format::Cbor,
                position: pos,
                kind: DecodeErrorKind::UnsupportedTypeByte,
            },
        );
    }
    let (n, hend) = match read_uint(bytes, pos) {
        Ok(p) => p,
        Err(e) => {
            return Err(e);
        },
    };
    if n > (bytes.len() - hend) as u64 {
        assert((hend - pos) + n > b.len());
        return Err(err_eof(Format::Cbor, bytes.len()));
    }
    let len_us: usize = n as usize;
    let mut chunk = copy_range(bytes, hend, len_us);
    assert(chunk@ =~= b.subrange(hend - pos, hend - pos + n as int));
    assert(b.skip(hend - pos + n as int) =~= bytes@.skip((hend + len_us) as int));
    match decode_chunks_at(bytes, hend + len_us, major) {
        Ok((rest, end)) => {
            push_bytes(&mut chunk, &rest);
            Ok((chunk, end))
        },
        Err(e) => Err(e),
    }
}

/// Decodes the elements of an indefinite-length array starting at `pos`, up
/// to its break byte.
fn decode_items_brk_at(bytes: &Vec<u8>, pos: usize) -> (r: Result<(Vec<Value>, usize), DecodeError>)
    requires
        pos <= bytes@.len(),
    ensures
        match r {
            Ok((vs, end)) => {
                &&& pos < end <= bytes@.len()
                &&& spec_decode_items_brk(bytes@.skip(pos as int)) == Some((
                    models_of(vs@),
                    (end - pos) as nat,
                ))
            },
            Err(e) => {
                &&& spec_decode_items_brk(bytes@.skip(pos as int)) is None
                &&& pos <= e.position <= bytes@.len()
                &&& e.format == Format::Cbor
            },
        },
    decreases bytes@.len() - pos, 2nat,
{
    let ghost b = bytes@.skip(pos as int);
    if pos == bytes.len() {
        return Err(err_eof(Format::Cbor, pos));
    }
    assert(b[0] == bytes@[pos as int]);
    if bytes[pos] == 0xff {
        let vs: Vec<Value> = Vec::new();
        assert(models_of(vs@) =~= Seq::<crate::value::ValueModel>::empty());
        return Ok((vs, pos + 1));
    }
    let (v, mid) = match decode_at(bytes, pos) {
        Ok(p) => p,
        Err(e) => {
            return Err(e);
        },
    };
    assert(b.skip(mid - pos) =~= bytes@.skip(mid as int));
    match decode_items_brk_at(bytes, mid) {
        Ok((mut vs, end)) => {
            let ghost tail_models = models_of(vs@);
            vs.insert(0, v);
            assert(models_of(vs@) =~= seq![v.model()] + tail_models);
            Ok((vs, end))
        },
        Err(e) => Err(e),
    }
}

/// Decodes the entries of an indefinite-length map starting at `pos`, up to
/// its break byte.
fn decode_entries_brk_at(bytes: &Vec<u8>, pos: usize) -> (r: Result<
    (Vec<(Value, Value)>, usize),
    DecodeError,
>)
    requires
        pos <= bytes@.len(),
    ensures
        match r {
            Ok((es, end)) => {
                &&& pos < end <= bytes@.len()
                &&& spec_decode_entries_brk(bytes@.skip(pos as int)) == Some((
                    entry_models_of(es@),
                    (end - pos) as nat,
                ))
            },
            Err(e) => {
                &&& spec_decode_entries_brk(bytes@.skip(pos as int)) is None
                &&& pos <= e.position <= bytes@.len()
                &&& e.format == Format::Cbor
            },
        },
    decreases bytes@.len() - pos, 2nat,
{
    let ghost b = bytes@.skip(pos as int);
    if pos == bytes.len() {
        return Err(err_eof(Format::Cbor, pos));
    }
    assert(b[0] == bytes@[pos as int]);
    if bytes[pos] == 0xff {
        let es: Vec<(Value, Value)> = Vec::new();
        assert(entry_models_of(es@) =~= Seq::<(
            crate::value::ValueModel,
            crate::value::ValueModel,
        )>::empty());
        return Ok((es, pos + 1));
    }
    let (key, mid1) = match decode_at(bytes, pos) {
        Ok(p) => p,
        Err(e) => {
            return Err(e);
        },
    };
    assert(b.skip(mid1 - pos) =~= bytes@.skip(mid1 as int));
    let (val, mid2) = match decode_at(bytes, mid1) {
        Ok(p) => p,
        Err(e) => {
            return Err(e);
        },
    };
    assert(b.skip(mid2 - pos) =~= bytes@.skip(mid2 as int));
    match decode_entries_brk_at(bytes, mid2) {
        Ok((mut es, end)) => {
            let ghost tail_models = entry_models_of(es@);
            es.insert(0, (key, val));
            assert(entry_models_of(es@) =~= seq![(key.model(), val.model())] + tail_models);
            Ok((es, end))
        },
        Err(e) => Err(e),
    }
}

/// A document stream: a forward-only cursor over one byte source, yielding
/// one decoded document per call until end of stream or the first error.
pub struct DocumentStream<'a> {
    bytes: &'a Vec<u8>,
    pos: usize,
}

impl<'a> DocumentStream<'a> {
    /// The cursor never leaves the stream.
    pub closed spec fn inv(&self) -> bool {
        self.pos <= self.bytes@.len()
    }

    /// The underlying bytes.
    pub closed spec fn spec_bytes(&self) -> Seq<u8> {
        self.bytes@
    }

    /// The cursor.
    pub closed spec fn spec_pos(&self) -> nat {
        self.pos as nat
    }

    /// Opens a stream over a byte source, positioned at its first document.
    pub fn new(bytes: &'a Vec<u8>) -> (r: Self)
        ensures
            r.inv(),
            r.spec_bytes() == bytes@,
            r.spec_pos() == 0,
    {
        DocumentStream { bytes, pos: 0 }
    }

    /// Pulls the next document. Yields `None` at end of stream; after an
    /// error the stream is exhausted and every later pull yields `None`.
    pub fn next(&mut self) -> (r: Option<Result<Value, DecodeError>>)
        requires
            old(self).inv(),
        ensures
            final(self).inv(),
            final(self).spec_bytes() == old(self).spec_bytes(),
            match r {
                None => {
                    &&& old(self).spec_pos() == old(self).spec_bytes().len()
                    &&& final(self).spec_pos() == old(self).spec_pos()
                },
                Some(Ok(v)) => {
                    &&& old(self).spec_pos() < final(self).spec_pos()
                    &&& spec_decode_one(old(self).spec_bytes().skip(old(self).spec_pos() as int))
                        == Some(
                        (v.model(), (final(self).spec_pos() - old(self).spec_pos()) as nat),
                    )
                },
                Some(Err(e)) => {
                    &&& spec_decode_one(old(self).spec_bytes().skip(old(self).spec_pos() as int))
                        is None
                    &&& old(self).spec_pos() < old(self).spec_bytes().len()
                    &&& old(self).spec_pos() <= e.position <= old(self).spec_bytes().len()
                    &&& final(self).spec_pos() == final(self).spec_bytes().len()
                },
            },
    {
        if self.pos == self.bytes.len() {
            return None;
        }
        match decode_at(self.bytes, self.pos) {
            Ok((v, end)) => {
                self.pos = end;
                Some(Ok(v))
            },
            Err(e) => {
                self.pos = self.bytes.len();
                Some(Err(e))
            },
        }
    }
}

/// Decodes a whole stream of documents. Succeeds exactly when every byte of
/// the input belongs to a well-formed document.
#[verifier::loop_isolation(false)]
pub fn decode_stream(bytes: &Vec<u8>) -> (r: Result<Vec<Value>, DecodeError>)
    ensures
        match r {
            Ok(vs) => spec_decode_stream(bytes@) == Some(models_of(vs@)),
            Err(e) => {
                &&& spec_decode_stream(bytes@) is None
                &&& spec_valid_prefix_len(bytes@) <= e.position <= bytes@.len()
                &&& e.format == Format::Cbor
            },
        },
{
    let mut vs: Vec<Value> = Vec::new();
    let mut pos: usize = 0;
    proof {
        assert(bytes@.skip(0) =~= bytes@);
        assert(models_of(vs@) =~= Seq::<crate::value::ValueModel>::empty());
        if spec_decode_stream(bytes@) is Some {
            assert(models_of(vs@) + spec_decode_stream(bytes@)->Some_0 =~= spec_decode_stream(
                bytes@,
            )->Some_0);
        }
    }
    while pos < bytes.len()
        invariant
            pos <= bytes@.len(),
            spec_decode_stream(bytes@.skip(pos as int)) is Some ==> spec_decode_stream(bytes@)
                == Some(models_of(vs@) + spec_decode_stream(bytes@.skip(pos as int))->Some_0),
            spec_decode_stream(bytes@.skip(pos as int)) is None ==> spec_decode_stream(bytes@)
                is None,
            spec_valid_prefix_len(bytes@) == pos + spec_valid_prefix_len(bytes@.skip(pos as int)),
        decreases bytes@.len() - pos,
    {
        match decode_at(bytes, pos) {
            Ok((v, end)) => {
                let ghost done = models_of(vs@);
                let ghost tail = bytes@.skip(pos as int);
                vs.push(v);
                proof {
                    assert(tail.skip(end - pos) =~= bytes@.skip(end as int));
                    assert(models_of(vs@) =~= done.push(v.model()));
                    if spec_decode_stream(bytes@.skip(end as int)) is Some {
                        let rest = spec_decode_stream(bytes@.skip(end as int))->Some_0;
                        assert(done + (seq![v.model()] + rest) =~= models_of(vs@) + rest);
                    }
                }
                pos = end;
            },
            Err(e) => {
                return Err(e);
            },
        }
    }
    proof {
        assert(bytes@.skip(pos as int) =~= Seq::<u8>::empty());
        assert(models_of(vs@) + Seq::<crate::value::ValueModel>::empty() =~= models_of(vs@));
    }
    Ok(vs)
}

} // verus!
