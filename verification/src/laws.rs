//! Proofs about the binary-compact encoding: headers read back as written,
//! every encoded value decodes to itself, decoding is the inverse of
//! encoding, and truncated documents never decode.
use vstd::prelude::*;

use crate::codec::{
    pow256, spec_be_bytes, spec_be_val, spec_decode_chunks, spec_decode_entries,
    spec_decode_entries_brk, spec_decode_items, spec_decode_items_brk, spec_decode_one,
    spec_decode_stream, spec_encode, spec_encode_entries, spec_encode_items, spec_header,
    spec_read_uint, top_bit, encodings_of, entry_encodings_of,
};
use crate::value::{ValueModel, wf};
use vstd::arithmetic::div_mod::{lemma_fundamental_div_mod, lemma_fundamental_div_mod_converse};
use vstd::arithmetic::power2::{
    lemma2_to64, lemma2_to64_rest, lemma_pow2_adds, lemma_pow2_pos, lemma_pow2_strictly_increases,
    lemma_pow2_unfold, pow2,
};

verus! {

broadcast use vstd::std_specs::vec::group_vec_axioms, vstd::seq::group_seq_axioms;

/// A big-endian field of `w` bytes has `w` bytes.
pub proof fn lemma_be_len(n: nat, w: nat)
    ensures
        spec_be_bytes(n, w).len() == w,
    decreases w,
{
    if w > 0 {
        lemma_be_len(n / 256, (w - 1) as nat);
    }
}

/// The value of a byte string fits in its width.
pub proof fn lemma_be_val_bound(b: Seq<u8>)
    ensures
        spec_be_val(b) < pow256(b.len()),
    decreases b.len(),
{
    if b.len() == 0 {
    } else {
        lemma_be_val_bound(b.drop_last());
        assert(spec_be_val(b.drop_last()) <= pow256((b.len() - 1) as nat) - 1);
        assert(spec_be_val(b.drop_last()) * 256 <= (pow256((b.len() - 1) as nat) - 1) * 256)
            by (nonlinear_arith)
            requires
                spec_be_val(b.drop_last()) <= pow256((b.len() - 1) as nat) - 1,
        ;
    }
}

/// Reading a big-endian field gives back the value written into it.
pub proof fn lemma_be_roundtrip(n: nat, w: nat)
    requires
        n < pow256(w),
    ensures
        spec_be_val(spec_be_bytes(n, w)) == n,
    decreases w,
{
    if w == 0 {
    } else {
        let rest = spec_be_bytes(n / 256, (w - 1) as nat);
        lemma_be_len(n / 256, (w - 1) as nat);
        let whole = rest + seq![(n % 256) as u8];
        assert(whole.drop_last() =~= rest);
        assert(whole.last() == (n % 256) as u8);
        assert(n / 256 < pow256((w - 1) as nat)) by (nonlinear_arith)
            requires
                n < pow256(w),
                pow256(w) == 256 * pow256((w - 1) as nat),
        ;
        lemma_be_roundtrip(n / 256, (w - 1) as nat);
        lemma_fundamental_div_mod(n as int, 256);
    }
}

/// Writing the value of a byte string reproduces the byte string.
pub proof fn lemma_be_bytes_of_val(b: Seq<u8>)
    ensures
        spec_be_bytes(spec_be_val(b), b.len()) == b,
    decreases b.len(),
{
    if b.len() == 0 {
        assert(spec_be_bytes(0, 0) =~= b);
    } else {
        let v = spec_be_val(b);
        let front = spec_be_val(b.drop_last());
        lemma_fundamental_div_mod_converse(v as int, 256, front as int, b.last() as int);
        lemma_be_bytes_of_val(b.drop_last());
        assert(spec_be_bytes(v, b.len()) =~= b);
    }
}

/// Concrete widths of the format's argument fields.
pub proof fn lemma_pow256_vals()
    ensures
        pow256(1) == 256,
        pow256(2) == 0x1_0000,
        pow256(4) == 0x1_0000_0000,
        pow256(8) == 0x1_0000_0000_0000_0000,
{
    reveal_with_fuel(pow256, 9);
}

/// A header byte splits back into its major and info parts.
proof fn lemma_initial_byte(major: nat, info: nat)
    requires
        major < 8,
        info < 32,
    ensures
        major * 32 + info < 256,
        ((major * 32 + info) as u8) / 32 == major,
        ((major * 32 + info) as u8) % 32 == info,
{
    lemma_fundamental_div_mod_converse((major * 32 + info) as int, 32, major as int, info as int);
}

/// A canonical header, followed by anything, reads back as written.
pub proof fn lemma_header_read(major: nat, n: nat, rest: Seq<u8>)
    requires
        major < 8,
        major != 7,
        n < 0x1_0000_0000_0000_0000,
    ensures
        ({
            let h = spec_header(major, n);
            let b = h + rest;
            &&& 1 <= h.len() <= 9
            &&& b[0] / 32 == major
            &&& spec_read_uint(b) == Some((n, h.len()))
        }),
{
    lemma_pow256_vals();
    reveal_with_fuel(spec_be_bytes, 2);
    let h = spec_header(major, n);
    let b = h + rest;
    if n < 24 {
        lemma_initial_byte(major, n);
        assert(b[0] == (major * 32 + n) as u8);
    } else if n < 256 {
        lemma_initial_byte(major, 24);
        lemma_be_len(n, 1);
        assert(b[0] == (major * 32 + 24) as u8);
        assert(b[1] == spec_be_bytes(n, 1)[0]);
        assert(spec_be_bytes(n, 1) =~= seq![(n % 256) as u8]);
        assert(b[1] == n);
    } else if n < 0x1_0000 {
        lemma_initial_byte(major, 25);
        lemma_be_len(n, 2);
        lemma_be_roundtrip(n, 2);
        assert(b.subrange(1, 3) =~= spec_be_bytes(n, 2));
        assert(b.len() >= 3);
    } else if n < 0x1_0000_0000 {
        lemma_initial_byte(major, 26);
        lemma_be_len(n, 4);
        lemma_be_roundtrip(n, 4);
        assert(b.subrange(1, 5) =~= spec_be_bytes(n, 4));
        assert(b.len() >= 5);
    } else {
        lemma_initial_byte(major, 27);
        lemma_be_len(n, 8);
        lemma_be_roundtrip(n, 8);
        assert(b.subrange(1, 9) =~= spec_be_bytes(n, 8));
        assert(b.len() >= 9);
    }
}

/// Whatever a header read returns is bounded.
pub proof fn lemma_read_uint_sound(b: Seq<u8>)
    requires
        spec_read_uint(b) is Some,
    ensures
        ({
            let (n, c) = spec_read_uint(b)->Some_0;
            &&& 1 <= c <= b.len()
            &&& c <= 9
            &&& n < 0x1_0000_0000_0000_0000
        }),
{
    lemma_pow256_vals();
    let info = b[0] % 32;
    if info == 25 {
        lemma_be_val_bound(b.subrange(1, 3));
    } else if info == 26 {
        lemma_be_val_bound(b.subrange(1, 5));
    } else if info == 27 {
        lemma_be_val_bound(b.subrange(1, 9));
    }
}

/// A header read looks only at the bytes it consumes: appending anything
/// changes nothing.
pub proof fn lemma_read_uint_monotone(b: Seq<u8>, ext: Seq<u8>)
    requires
        spec_read_uint(b) is Some,
    ensures
        spec_read_uint(b + ext) == spec_read_uint(b),
{
    let c = b + ext;
    assert(c[0] == b[0]);
    let info = b[0] % 32;
    if info == 24 {
        assert(c[1] == b[1]);
    } else if info == 25 {
        assert(c.subrange(1, 3) =~= b.subrange(1, 3));
    } else if info == 26 {
        assert(c.subrange(1, 5) =~= b.subrange(1, 5));
    } else if info == 27 {
        assert(c.subrange(1, 9) =~= b.subrange(1, 9));
    }
}

/// Powers of two grow with the exponent.
pub proof fn lemma_pow2_mono(a: nat, b: nat)
    requires
        a <= b,
    ensures
        pow2(a) <= pow2(b),
        pow2(a) >= 1,
{
    lemma_pow2_pos(a);
    if a < b {
        lemma_pow2_strictly_increases(a, b);
    }
}

/// Powers of two multiply by adding exponents.
pub proof fn lemma_pow2_add(a: nat, b: nat)
    ensures
        pow2(a) * pow2(b) == pow2(a + b),
{
    lemma_pow2_adds(a, b);
}

/// Concrete powers of two used by the float widths.
pub proof fn lemma_pow2_vals()
    ensures
        pow2(10) == 0x400,
        pow2(23) == 0x80_0000,
        pow2(52) == 0x10_0000_0000_0000,
{
    lemma2_to64();
    lemma2_to64_rest();
}

/// The highest set bit brackets the value.
pub proof fn lemma_top_bit_bracket(f: nat)
    requires
        f >= 1,
    ensures
        pow2(top_bit(f)) <= f < pow2(top_bit(f) + 1),
    decreases f,
{
    if f < 2 {
        lemma2_to64();
    } else {
        lemma_top_bit_bracket(f / 2);
        lemma_pow2_unfold(top_bit(f));
        lemma_pow2_unfold(top_bit(f) + 1);
    }
}

/// A bound on the value bounds its highest bit.
pub proof fn lemma_top_bit_bound(f: nat, j: nat)
    requires
        1 <= f < pow2(j),
    ensures
        top_bit(f) < j,
{
    lemma_top_bit_bracket(f);
    if top_bit(f) >= j {
        lemma_pow2_mono(j, top_bit(f));
    }
}

/// Every encoding is at least one byte long.
pub proof fn lemma_encode_len_pos(v: ValueModel)
    ensures
        spec_encode(v).len() >= 1,
{
}

/// `spec_encode` on an array is the header plus the items' encodings.
pub proof fn lemma_encode_array(items: Seq<ValueModel>)
    ensures
        spec_encode(ValueModel::Array(items)) == spec_header(4, items.len())
            + spec_encode_items(items),
{
}

/// `spec_encode` on a dictionary is the header plus the entries' encodings.
pub proof fn lemma_encode_dict(pairs: Seq<(ValueModel, ValueModel)>)
    ensures
        spec_encode(ValueModel::Dict(pairs)) == spec_header(5, pairs.len())
            + spec_encode_entries(pairs),
{
}

/// No items encode to no bytes.
pub proof fn lemma_encode_items_empty(s: Seq<ValueModel>)
    requires
        s.len() == 0,
    ensures
        spec_encode_items(s) == Seq::<u8>::empty(),
{
    assert(encodings_of(s) =~= Seq::<Seq<u8>>::empty());
    reveal_with_fuel(Seq::<_>::flatten, 2);
}

/// No entries encode to no bytes.
pub proof fn lemma_encode_entries_empty(s: Seq<(ValueModel, ValueModel)>)
    requires
        s.len() == 0,
    ensures
        spec_encode_entries(s) == Seq::<u8>::empty(),
{
    assert(entry_encodings_of(s) =~= Seq::<Seq<u8>>::empty());
    reveal_with_fuel(Seq::<_>::flatten, 2);
}

/// Item encodings split off their first element.
pub proof fn lemma_encode_items_unfold(s: Seq<ValueModel>)
    requires
        s.len() > 0,
    ensures
        spec_encode_items(s) == spec_encode(s[0]) + spec_encode_items(s.drop_first()),
{
    let m = encodings_of(s);
    assert(m.drop_first() =~= encodings_of(s.drop_first()));
    reveal_with_fuel(Seq::<_>::flatten, 2);
    assert(m.flatten() == m.first() + m.drop_first().flatten());
}

/// Entry encodings split off their first entry.
pub proof fn lemma_encode_entries_unfold(s: Seq<(ValueModel, ValueModel)>)
    requires
        s.len() > 0,
    ensures
        spec_encode_entries(s) == spec_encode(s[0].0) + spec_encode(s[0].1)
            + spec_encode_entries(s.drop_first()),
{
    let m = entry_encodings_of(s);
    assert(m.drop_first() =~= entry_encodings_of(s.drop_first()));
    reveal_with_fuel(Seq::<_>::flatten, 2);
    assert(m.flatten() == m.first() + m.drop_first().flatten());
    assert(m.flatten() =~= (spec_encode(s[0].0) + spec_encode(s[0].1))
        + spec_encode_entries(s.drop_first()));
}

/// Soundness: whatever decodes is a well-formed value occupying at least
/// one byte and no more than the stream holds.
pub proof fn lemma_decode_one_sound(b: Seq<u8>)
    requires
        spec_decode_one(b) is Some,
    ensures
        ({
            let (v, n) = spec_decode_one(b)->Some_0;
            &&& 1 <= n <= b.len()
            &&& wf(v)
        }),
    decreases b.len(), 0nat,
{
    let (v, n) = spec_decode_one(b)->Some_0;
    let major = b[0] / 32;
    if major == 7 {
    } else if major == 6 {
        let (tag, h) = spec_read_uint(b)->Some_0;
        lemma_read_uint_sound(b);
        lemma_decode_one_sound(b.skip(h as int));
    } else if b[0] % 32 == 31 && major >= 2 {
        if major == 2 || major == 3 {
            lemma_decode_chunks_sound(b.skip(1), major as nat);
        } else if major == 4 {
            lemma_decode_items_brk_sound(b.skip(1));
        } else {
            lemma_decode_entries_brk_sound(b.skip(1));
        }
    } else {
        let (arg, h) = spec_read_uint(b)->Some_0;
        lemma_read_uint_sound(b);
        if major == 4 {
            lemma_decode_items_sound(b.skip(h as int), arg);
        } else if major == 5 {
            lemma_decode_entries_sound(b.skip(h as int), arg);
        }
    }
}

/// Soundness for indefinite-length string chunks.
pub proof fn lemma_decode_chunks_sound(b: Seq<u8>, major: nat)
    requires
        spec_decode_chunks(b, major) is Some,
    ensures
        ({
            let (s, m) = spec_decode_chunks(b, major)->Some_0;
            1 <= m <= b.len()
        }),
    decreases b.len(), 1nat,
{
    if b[0] == 0xff {
    } else {
        let (n, h) = spec_read_uint(b)->Some_0;
        lemma_decode_chunks_sound(b.skip((h + n) as int), major);
    }
}

/// Soundness for indefinite-length item lists.
pub proof fn lemma_decode_items_brk_sound(b: Seq<u8>)
    requires
        spec_decode_items_brk(b) is Some,
    ensures
        ({
            let (vs, m) = spec_decode_items_brk(b)->Some_0;
            &&& 1 <= m <= b.len()
            &&& forall|i: int| 0 <= i < vs.len() ==> wf(#[trigger] vs[i])
        }),
    decreases b.len(), 1nat,
{
    if b[0] == 0xff {
    } else {
        let (v, n) = spec_decode_one(b)->Some_0;
        lemma_decode_one_sound(b);
        lemma_decode_items_brk_sound(b.skip(n as int));
    }
}

/// Soundness for indefinite-length entry lists.
pub proof fn lemma_decode_entries_brk_sound(b: Seq<u8>)
    requires
        spec_decode_entries_brk(b) is Some,
    ensures
        ({
            let (es, m) = spec_decode_entries_brk(b)->Some_0;
            &&& 1 <= m <= b.len()
            &&& forall|i: int| 0 <= i < es.len() ==> wf((#[trigger] es[i]).0) && wf(es[i].1)
        }),
    decreases b.len(), 1nat,
{
    if b[0] == 0xff {
    } else {
        let (key, n1) = spec_decode_one(b)->Some_0;
        lemma_decode_one_sound(b);
        let b2 = b.skip(n1 as int);
        let (val, n2) = spec_decode_one(b2)->Some_0;
        lemma_decode_one_sound(b2);
        lemma_decode_entries_brk_sound(b.skip((n1 + n2) as int));
    }
}

/// Soundness for item lists.
pub proof fn lemma_decode_items_sound(b: Seq<u8>, k: nat)
    requires
        spec_decode_items(b, k) is Some,
    ensures
        ({
            let (vs, m) = spec_decode_items(b, k)->Some_0;
            &&& vs.len() == k
            &&& m <= b.len()
            &&& forall|i: int| 0 <= i < k ==> wf(#[trigger] vs[i])
        }),
    decreases b.len(), 1nat,
{
    if k == 0 {
    } else {
        let (v, n) = spec_decode_one(b)->Some_0;
        lemma_decode_one_sound(b);
        lemma_decode_items_sound(b.skip(n as int), (k - 1) as nat);
    }
}

/// Soundness for entry lists.
pub proof fn lemma_decode_entries_sound(b: Seq<u8>, k: nat)
    requires
        spec_decode_entries(b, k) is Some,
    ensures
        ({
            let (es, m) = spec_decode_entries(b, k)->Some_0;
            &&& es.len() == k
            &&& m <= b.len()
            &&& forall|i: int| 0 <= i < k ==> wf((#[trigger] es[i]).0) && wf(es[i].1)
        }),
    decreases b.len(), 1nat,
{
    if k == 0 {
    } else {
        let (key, n1) = spec_decode_one(b)->Some_0;
        lemma_decode_one_sound(b);
        let b2 = b.skip(n1 as int);
        let (val, n2) = spec_decode_one(b2)->Some_0;
        lemma_decode_one_sound(b2);
        lemma_decode_entries_sound(b.skip((n1 + n2) as int), (k - 1) as nat);
    }
}

/// Decoding looks only at the bytes of the first document: appending
/// anything to the stream changes neither the value nor its length.
pub proof fn lemma_decode_one_monotone(b: Seq<u8>, ext: Seq<u8>)
    requires
        spec_decode_one(b) is Some,
    ensures
        spec_decode_one(b + ext) == spec_decode_one(b),
    decreases b.len(), 0nat,
{
    let c = b + ext;
    assert(c[0] == b[0]);
    let major = b[0] / 32;
    if major == 7 {
        let info = b[0] % 32;
        if info == 25 {
            assert(c.subrange(1, 3) =~= b.subrange(1, 3));
        } else if info == 26 {
            assert(c.subrange(1, 5) =~= b.subrange(1, 5));
        } else if info == 27 {
            assert(c.subrange(1, 9) =~= b.subrange(1, 9));
        }
    } else if major == 6 {
        lemma_read_uint_monotone(b, ext);
        lemma_read_uint_sound(b);
        let (tag, h) = spec_read_uint(b)->Some_0;
        assert(c.skip(h as int) =~= b.skip(h as int) + ext);
        lemma_decode_one_monotone(b.skip(h as int), ext);
    } else if b[0] % 32 == 31 && major >= 2 {
        assert(c.skip(1) =~= b.skip(1) + ext);
        if major == 2 || major == 3 {
            lemma_decode_chunks_monotone(b.skip(1), ext, major as nat);
        } else if major == 4 {
            lemma_decode_items_brk_monotone(b.skip(1), ext);
        } else {
            lemma_decode_entries_brk_monotone(b.skip(1), ext);
        }
    } else {
        lemma_read_uint_monotone(b, ext);
        lemma_read_uint_sound(b);
        let (arg, h) = spec_read_uint(b)->Some_0;
        if major == 2 || major == 3 {
            assert(c.subrange(h as int, (h + arg) as int) =~= b.subrange(
                h as int,
                (h + arg) as int,
            ));
        } else if major == 4 {
            assert(c.skip(h as int) =~= b.skip(h as int) + ext);
            lemma_decode_items_monotone(b.skip(h as int), ext, arg);
        } else if major == 5 {
            assert(c.skip(h as int) =~= b.skip(h as int) + ext);
            lemma_decode_entries_monotone(b.skip(h as int), ext, arg);
        }
    }
}

/// Monotonicity for string chunks.
pub proof fn lemma_decode_chunks_monotone(b: Seq<u8>, ext: Seq<u8>, major: nat)
    requires
        spec_decode_chunks(b, major) is Some,
    ensures
        spec_decode_chunks(b + ext, major) == spec_decode_chunks(b, major),
    decreases b.len(), 1nat,
{
    let c = b + ext;
    assert(c[0] == b[0]);
    if b[0] == 0xff {
    } else {
        lemma_read_uint_monotone(b, ext);
        let (n, h) = spec_read_uint(b)->Some_0;
        assert(c.subrange(h as int, (h + n) as int) =~= b.subrange(h as int, (h + n) as int));
        assert(c.skip((h + n) as int) =~= b.skip((h + n) as int) + ext);
        lemma_decode_chunks_monotone(b.skip((h + n) as int), ext, major);
    }
}

/// Monotonicity for indefinite-length item lists.
pub proof fn lemma_decode_items_brk_monotone(b: Seq<u8>, ext: Seq<u8>)
    requires
        spec_decode_items_brk(b) is Some,
    ensures
        spec_decode_items_brk(b + ext) == spec_decode_items_brk(b),
    decreases b.len(), 1nat,
{
    let c = b + ext;
    assert(c[0] == b[0]);
    if b[0] == 0xff {
    } else {
        let (v, n) = spec_decode_one(b)->Some_0;
        lemma_decode_one_monotone(b, ext);
        lemma_decode_one_sound(b);
        assert(c.skip(n as int) =~= b.skip(n as int) + ext);
        lemma_decode_items_brk_monotone(b.skip(n as int), ext);
    }
}

/// Monotonicity for indefinite-length entry lists.
pub proof fn lemma_decode_entries_brk_monotone(b: Seq<u8>, ext: Seq<u8>)
    requires
        spec_decode_entries_brk(b) is Some,
    ensures
        spec_decode_entries_brk(b + ext) == spec_decode_entries_brk(b),
    decreases b.len(), 1nat,
{
    let c = b + ext;
    assert(c[0] == b[0]);
    if b[0] == 0xff {
    } else {
        let (key, n1) = spec_decode_one(b)->Some_0;
        lemma_decode_one_monotone(b, ext);
        lemma_decode_one_sound(b);
        let b2 = b.skip(n1 as int);
        let (val, n2) = spec_decode_one(b2)->Some_0;
        assert(c.skip(n1 as int) =~= b2 + ext);
        lemma_decode_one_monotone(b2, ext);
        lemma_decode_one_sound(b2);
        assert(c.skip((n1 + n2) as int) =~= b.skip((n1 + n2) as int) + ext);
        lemma_decode_entries_brk_monotone(b.skip((n1 + n2) as int), ext);
    }
}

/// Monotonicity for item lists.
pub proof fn lemma_decode_items_monotone(b: Seq<u8>, ext: Seq<u8>, k: nat)
    requires
        spec_decode_items(b, k) is Some,
    ensures
        spec_decode_items(b + ext, k) == spec_decode_items(b, k),
    decreases b.len(), 1nat,
{
    let c = b + ext;
    if k == 0 {
    } else {
        let (v, n) = spec_decode_one(b)->Some_0;
        lemma_decode_one_monotone(b, ext);
        lemma_decode_one_sound(b);
        assert(c.skip(n as int) =~= b.skip(n as int) + ext);
        lemma_decode_items_monotone(b.skip(n as int), ext, (k - 1) as nat);
    }
}

/// Monotonicity for entry lists.
pub proof fn lemma_decode_entries_monotone(b: Seq<u8>, ext: Seq<u8>, k: nat)
    requires
        spec_decode_entries(b, k) is Some,
    ensures
        spec_decode_entries(b + ext, k) == spec_decode_entries(b, k),
    decreases b.len(), 1nat,
{
    let c = b + ext;
    if k == 0 {
    } else {
        let (key, n1) = spec_decode_one(b)->Some_0;
        lemma_decode_one_monotone(b, ext);
        lemma_decode_one_sound(b);
        let b2 = b.skip(n1 as int);
        let (val, n2) = spec_decode_one(b2)->Some_0;
        assert(c.skip(n1 as int) =~= b2 + ext);
        lemma_decode_one_monotone(b2, ext);
        lemma_decode_one_sound(b2);
        assert(c.skip((n1 + n2) as int) =~= b.skip((n1 + n2) as int) + ext);
        lemma_decode_entries_monotone(b.skip((n1 + n2) as int), ext, (k - 1) as nat);
    }
}

/// Completeness for integers.
proof fn lemma_complete_int(i: int, rest: Seq<u8>)
    requires
        -0x8000_0000_0000_0000 <= i <= 0x7fff_ffff_ffff_ffff,
    ensures
        ({
            let v = ValueModel::Integer(i);
            spec_decode_one(spec_encode(v) + rest) == Some((v, spec_encode(v).len() as nat))
        }),
{
    if i >= 0 {
        lemma_header_read(0, i as nat, rest);
    } else {
        lemma_header_read(1, (-i - 1) as nat, rest);
    }
}

/// Completeness for floats.
proof fn lemma_complete_float(bits: u64, rest: Seq<u8>)
    ensures
        ({
            let v = ValueModel::Float(bits);
            spec_decode_one(spec_encode(v) + rest) == Some((v, spec_encode(v).len() as nat))
        }),
{
    let v = ValueModel::Float(bits);
    let b = spec_encode(v) + rest;
    lemma_pow256_vals();
    lemma_be_len(bits as nat, 8);
    assert(b[0] == 0xfbu8);
    assert(b.subrange(1, 9) =~= spec_be_bytes(bits as nat, 8));
    lemma_be_roundtrip(bits as nat, 8);
}

/// Completeness for byte strings.
proof fn lemma_complete_bytes(s: Seq<u8>, rest: Seq<u8>)
    requires
        s.len() < 0x1_0000_0000_0000_0000,
    ensures
        ({
            let v = ValueModel::Bytes(s);
            spec_decode_one(spec_encode(v) + rest) == Some((v, spec_encode(v).len() as nat))
        }),
{
    let v = ValueModel::Bytes(s);
    let b = spec_encode(v) + rest;
    let h = spec_header(2, s.len());
    lemma_header_read(2, s.len(), s + rest);
    assert((h + s) + rest =~= h + (s + rest));
    assert(b.subrange(h.len() as int, (h.len() + s.len()) as int) =~= s);
}

/// Completeness for text strings.
proof fn lemma_complete_text(s: Seq<u8>, rest: Seq<u8>)
    requires
        s.len() < 0x1_0000_0000_0000_0000,
        vstd::utf8::valid_utf8(s),
    ensures
        ({
            let v = ValueModel::Text(s);
            spec_decode_one(spec_encode(v) + rest) == Some((v, spec_encode(v).len() as nat))
        }),
{
    let v = ValueModel::Text(s);
    let b = spec_encode(v) + rest;
    let h = spec_header(3, s.len());
    lemma_header_read(3, s.len(), s + rest);
    assert((h + s) + rest =~= h + (s + rest));
    assert(b.subrange(h.len() as int, (h.len() + s.len()) as int) =~= s);
}

/// Completeness: the canonical encoding of a well-formed value, followed by
/// anything at all, decodes to exactly that value, consuming exactly the
/// encoding. This is the round-trip law: re-encoding what was decoded yields
/// byte-identical output.
#[verifier::rlimit(100)]
pub proof fn lemma_encode_complete(v: ValueModel, rest: Seq<u8>)
    requires
        wf(v),
    ensures
        spec_decode_one(spec_encode(v) + rest) == Some((v, spec_encode(v).len() as nat)),
    decreases v,
{
    let e = spec_encode(v);
    let b = e + rest;
    match v {
        ValueModel::Null => {
            assert(b[0] == 0xf6u8);
        },
        ValueModel::Bool(_) => {},
        ValueModel::Integer(i) => {
            lemma_complete_int(i, rest);
        },
        ValueModel::Float(bits) => {
            lemma_complete_float(bits, rest);
        },
        ValueModel::Bytes(s) => {
            lemma_complete_bytes(s, rest);
        },
        ValueModel::Text(s) => {
            lemma_complete_text(s, rest);
        },
        ValueModel::Array(items) => {
            let h = spec_header(4, items.len());
            let body = spec_encode_items(items);
            lemma_encode_array(items);
            lemma_header_read(4, items.len(), body + rest);
            assert((h + body) + rest =~= h + (body + rest));
            assert(b.skip(h.len() as int) =~= body + rest);
            lemma_encode_items_complete(items, rest);
        },
        ValueModel::Dict(pairs) => {
            let h = spec_header(5, pairs.len());
            let body = spec_encode_entries(pairs);
            lemma_encode_dict(pairs);
            lemma_header_read(5, pairs.len(), body + rest);
            assert((h + body) + rest =~= h + (body + rest));
            assert(b.skip(h.len() as int) =~= body + rest);
            assert forall|i: int| 0 <= i < pairs.len() implies wf((#[trigger] pairs[i]).0) && wf(
                pairs[i].1,
            ) by {}
            lemma_encode_entries_complete(pairs, rest);
        },
    }
}

/// Completeness for item lists.
#[verifier::rlimit(100)]
pub proof fn lemma_encode_items_complete(s: Seq<ValueModel>, rest: Seq<u8>)
    requires
        forall|i: int| 0 <= i < s.len() ==> wf(#[trigger] s[i]),
    ensures
        spec_decode_items(spec_encode_items(s) + rest, s.len()) == Some(
            (s, spec_encode_items(s).len() as nat),
        ),
    decreases s,
{
    if s.len() == 0 {
        lemma_encode_items_empty(s);
        assert(spec_encode_items(s) + rest =~= rest);
        assert(s =~= Seq::<ValueModel>::empty());
    } else {
        let v = s[0];
        let stail = s.subrange(1, s.len() as int);
        lemma_encode_items_unfold(s);
        let e = spec_encode(v);
        let etail = spec_encode_items(stail);
        assert(s.drop_first() =~= stail);
        let b = spec_encode_items(s) + rest;
        assert(b =~= e + (etail + rest));
        lemma_encode_complete(v, etail + rest);
        lemma_encode_len_pos(v);
        assert(b.skip(e.len() as int) =~= etail + rest);
        lemma_encode_items_complete(stail, rest);
        assert(seq![v] + stail =~= s);
    }
}

/// Completeness for entry lists.
#[verifier::rlimit(100)]
pub proof fn lemma_encode_entries_complete(s: Seq<(ValueModel, ValueModel)>, rest: Seq<u8>)
    requires
        forall|i: int| 0 <= i < s.len() ==> wf((#[trigger] s[i]).0) && wf(s[i].1),
    ensures
        spec_decode_entries(spec_encode_entries(s) + rest, s.len()) == Some(
            (s, spec_encode_entries(s).len() as nat),
        ),
    decreases s,
{
    if s.len() == 0 {
        lemma_encode_entries_empty(s);
        assert(spec_encode_entries(s) + rest =~= rest);
        assert(s =~= Seq::<(ValueModel, ValueModel)>::empty());
    } else {
        let (key, val) = s[0];
        let stail = s.subrange(1, s.len() as int);
        lemma_encode_entries_unfold(s);
        let ek = spec_encode(key);
        let ev = spec_encode(val);
        let etail = spec_encode_entries(stail);
        assert(s.drop_first() =~= stail);
        let b = spec_encode_entries(s) + rest;
        assert(b =~= ek + (ev + (etail + rest)));
        lemma_encode_complete(key, ev + (etail + rest));
        lemma_encode_len_pos(key);
        assert(b.skip(ek.len() as int) =~= ev + (etail + rest));
        lemma_encode_complete(val, etail + rest);
        lemma_encode_len_pos(val);
        assert(b.skip((ek.len() + ev.len()) as int) =~= etail + rest);
        lemma_encode_entries_complete(stail, rest);
        assert(seq![(key, val)] + stail =~= s);
    }
}

/// A document truncated anywhere inside its encoding never decodes: no
/// value is produced from a stream cut off mid-value.
pub proof fn lemma_truncation(v: ValueModel, k: int)
    requires
        wf(v),
        0 <= k < spec_encode(v).len(),
    ensures
        spec_decode_one(spec_encode(v).take(k)) is None,
{
    let e = spec_encode(v);
    let p = e.take(k);
    if spec_decode_one(p) is Some {
        let (w, m) = spec_decode_one(p)->Some_0;
        lemma_decode_one_sound(p);
        lemma_decode_one_monotone(p, e.skip(k));
        assert(p + e.skip(k) =~= e);
        lemma_encode_complete(v, Seq::empty());
        assert(e + Seq::<u8>::empty() =~= e);
        assert(false);
    }
}

/// A stream made of the concatenated encodings of any well-formed values
/// decodes to exactly those values: two concatenated documents come back as
/// two stream elements, not one.
pub proof fn lemma_stream_complete(vs: Seq<ValueModel>)
    requires
        forall|i: int| 0 <= i < vs.len() ==> wf(#[trigger] vs[i]),
    ensures
        spec_decode_stream(spec_encode_items(vs)) == Some(vs),
    decreases vs.len(),
{
    let b = spec_encode_items(vs);
    if vs.len() == 0 {
        lemma_encode_items_empty(vs);
        assert(vs =~= Seq::<ValueModel>::empty());
    } else {
        lemma_encode_items_unfold(vs);
        let e0 = spec_encode(vs[0]);
        let rest = spec_encode_items(vs.drop_first());
        lemma_encode_complete(vs[0], rest);
        lemma_encode_len_pos(vs[0]);
        assert(b.skip(e0.len() as int) =~= rest);
        lemma_stream_complete(vs.drop_first());
        assert(seq![vs[0]] + vs.drop_first() =~= vs);
    }
}

/// Whatever a stream decodes to is a sequence of well-formed values.
pub proof fn lemma_stream_sound(b: Seq<u8>)
    requires
        spec_decode_stream(b) is Some,
    ensures
        ({
            let vs = spec_decode_stream(b)->Some_0;
            forall|i: int| 0 <= i < vs.len() ==> wf(#[trigger] vs[i])
        }),
    decreases b.len(),
{
    let vs = spec_decode_stream(b)->Some_0;
    if b.len() == 0 {
    } else {
        let (v, n) = spec_decode_one(b)->Some_0;
        lemma_decode_one_sound(b);
        lemma_stream_sound(b.skip(n as int));
    }
}

} // verus!
