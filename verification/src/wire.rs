//! Byte-level codec for the self-describing wire value format.
//!
//! A value is framed as a one-byte marker, an optional big-endian length or
//! payload field, and the payload itself.  `enc_value` is the canonical
//! encoding a writer produces; `dec_value` accepts every well-formed
//! encoding, canonical or not, and is the single authority on what a byte
//! stream means.

use vstd::prelude::*;
use vstd::string::StrSliceExecFns;

use crate::value::{
    lemma_pair_views_from, lemma_pair_views_wf_from, lemma_views_from, lemma_views_wf_from,
    pair_views_wf_from, value_view, view_wf, views_wf_from, Value, ValueView,
};

verus! {

/// 256 to the `w`.
pub open spec fn pow256(w: nat) -> nat
    decreases w,
{
    if w == 0 {
        1
    } else {
        256 * pow256((w - 1) as nat)
    }
}

/// The `w` big-endian bytes of `n` (its residue modulo 256^`w`).
pub open spec fn be_bytes(n: nat, w: nat) -> Seq<u8>
    decreases w,
{
    if w == 0 {
        Seq::empty()
    } else {
        be_bytes(n / 256, (w - 1) as nat).push((n % 256) as u8)
    }
}

/// The value of a big-endian byte string.
pub open spec fn be_val(b: Seq<u8>) -> nat
    decreases b.len(),
{
    if b.len() == 0 {
        0
    } else {
        be_val(b.drop_last()) * 256 + b.last() as nat
    }
}

pub proof fn lemma_be_bytes_len(n: nat, w: nat)
    ensures
        be_bytes(n, w).len() == w,
    decreases w,
{
    if w > 0 {
        lemma_be_bytes_len(n / 256, (w - 1) as nat);
    }
}

pub proof fn lemma_be_val_be_bytes(n: nat, w: nat)
    requires
        n < pow256(w),
    ensures
        be_val(be_bytes(n, w)) == n,
    decreases w,
{
    if w > 0 {
        let q = n / 256;
        let r = n % 256;
        assert(q < pow256((w - 1) as nat)) by (nonlinear_arith)
            requires
                n < pow256(w),
                pow256(w) == 256 * pow256((w - 1) as nat),
                q == n / 256,
        ;
        lemma_be_val_be_bytes(q, (w - 1) as nat);
        lemma_be_bytes_len(q, (w - 1) as nat);
        assert(be_bytes(n, w).drop_last() =~= be_bytes(q, (w - 1) as nat));
        assert(q * 256 + r == n) by (nonlinear_arith)
            requires
                q == n / 256,
                r == n % 256,
        ;
    }
}

/// Marker plus length field for a string of `n` bytes.
pub open spec fn str_header(n: nat) -> Seq<u8> {
    if n < 32 {
        seq![(0xa0 + n) as u8]
    } else if n <= 0xFF {
        seq![0xd9u8] + be_bytes(n, 1)
    } else if n <= 0xFFFF {
        seq![0xdau8] + be_bytes(n, 2)
    } else {
        seq![0xdbu8] + be_bytes(n, 4)
    }
}

/// Marker plus length field for a binary payload of `n` bytes.
pub open spec fn bin_header(n: nat) -> Seq<u8> {
    if n <= 0xFF {
        seq![0xc4u8] + be_bytes(n, 1)
    } else if n <= 0xFFFF {
        seq![0xc5u8] + be_bytes(n, 2)
    } else {
        seq![0xc6u8] + be_bytes(n, 4)
    }
}

/// Marker plus length field for an array of `n` elements.
pub open spec fn array_header(n: nat) -> Seq<u8> {
    if n < 16 {
        seq![(0x90 + n) as u8]
    } else if n <= 0xFFFF {
        seq![0xdcu8] + be_bytes(n, 2)
    } else {
        seq![0xddu8] + be_bytes(n, 4)
    }
}

/// Marker plus length field for a mapping of `n` pairs.
pub open spec fn map_header(n: nat) -> Seq<u8> {
    if n < 16 {
        seq![(0x80 + n) as u8]
    } else if n <= 0xFFFF {
        seq![0xdeu8] + be_bytes(n, 2)
    } else {
        seq![0xdfu8] + be_bytes(n, 4)
    }
}

/// Canonical encoding of a non-negative integer.
pub open spec fn enc_uint(i: int) -> Seq<u8> {
    if i <= 0x7F {
        seq![i as u8]
    } else if i <= 0xFF {
        seq![0xccu8] + be_bytes(i as nat, 1)
    } else if i <= 0xFFFF {
        seq![0xcdu8] + be_bytes(i as nat, 2)
    } else if i <= 0xFFFF_FFFF {
        seq![0xceu8] + be_bytes(i as nat, 4)
    } else {
        seq![0xcfu8] + be_bytes(i as nat, 8)
    }
}

/// Canonical encoding of a negative integer, in two's complement.
pub open spec fn enc_negint(i: int) -> Seq<u8> {
    if i >= -32 {
        seq![(i + 0x100) as u8]
    } else if i >= -0x80 {
        seq![0xd0u8] + be_bytes((i + 0x100) as nat, 1)
    } else if i >= -0x8000 {
        seq![0xd1u8] + be_bytes((i + 0x1_0000) as nat, 2)
    } else if i >= -0x8000_0000 {
        seq![0xd2u8] + be_bytes((i + 0x1_0000_0000) as nat, 4)
    } else {
        seq![0xd3u8] + be_bytes((i + 0x1_0000_0000_0000_0000) as nat, 8)
    }
}

/// The canonical encoding of a value.
pub open spec fn enc_value(v: ValueView) -> Seq<u8>
    decreases v, 0int, 0int,
{
    match v {
        ValueView::Nil => seq![0xc0u8],
        ValueView::Bool(b) => if b {
            seq![0xc3u8]
        } else {
            seq![0xc2u8]
        },
        ValueView::Int(i) => if i >= 0 {
            enc_uint(i)
        } else {
            enc_negint(i)
        },
        ValueView::Float(bits) => seq![0xcbu8] + be_bytes(bits as nat, 8),
        ValueView::Str(s) => {
            let b = vstd::utf8::encode_utf8(s);
            str_header(b.len()) + b
        },
        ValueView::Bin(b) => bin_header(b.len()) + b,
        ValueView::Array(items) => array_header(items.len()) + enc_list(items, 0),
        ValueView::Mapping(pairs) => map_header(pairs.len()) + enc_pairs(pairs, 0),
    }
}

/// The concatenated encodings of the elements from position `i` on.
pub open spec fn enc_list(items: Seq<ValueView>, i: int) -> Seq<u8>
    decreases items, 1int, items.len() - i,
{
    if i < 0 || i >= items.len() {
        Seq::empty()
    } else {
        enc_value(items[i]) + enc_list(items, i + 1)
    }
}

/// The concatenated key-value encodings of the pairs from position `i` on.
pub open spec fn enc_pairs(pairs: Seq<(ValueView, ValueView)>, i: int) -> Seq<u8>
    decreases pairs, 1int, pairs.len() - i,
{
    if i < 0 || i >= pairs.len() {
        Seq::empty()
    } else {
        enc_value(pairs[i].0) + enc_value(pairs[i].1) + enc_pairs(pairs, i + 1)
    }
}

/// Appends the `w` big-endian bytes of `n` to `out`.
fn write_be(out: &mut Vec<u8>, n: u64, w: u8)
    requires
        w <= 8,
    ensures
        final(out)@ == old(out)@ + be_bytes(n as nat, w as nat),
    decreases w,
{
    if w == 0 {
        assert(out@ =~= old(out)@ + be_bytes(n as nat, 0));
    } else {
        write_be(out, n / 256, w - 1);
        out.push((n % 256) as u8);
        assert(out@ =~= old(out)@ + be_bytes(n as nat, w as nat));
    }
}

/// Appends the canonical encoding of a non-negative integer.
fn encode_uint(n: u64, out: &mut Vec<u8>)
    ensures
        final(out)@ == old(out)@ + enc_uint(n as int),
{
    if n <= 0x7F {
        out.push(n as u8);
    } else if n <= 0xFF {
        out.push(0xcc);
        write_be(out, n, 1);
    } else if n <= 0xFFFF {
        out.push(0xcd);
        write_be(out, n, 2);
    } else if n <= 0xFFFF_FFFF {
        out.push(0xce);
        write_be(out, n, 4);
    } else {
        out.push(0xcf);
        write_be(out, n, 8);
    }
    assert(out@ =~= old(out)@ + enc_uint(n as int));
}

/// Appends the canonical encoding of a negative integer.
fn encode_negint(n: i64, out: &mut Vec<u8>)
    requires
        n < 0,
    ensures
        final(out)@ == old(out)@ + enc_negint(n as int),
{
    if n >= -32 {
        out.push((n + 0x100) as u8);
    } else if n >= -0x80 {
        out.push(0xd0);
        write_be(out, (n + 0x100) as u64, 1);
    } else if n >= -0x8000 {
        out.push(0xd1);
        write_be(out, (n + 0x1_0000) as u64, 2);
    } else if n >= -0x8000_0000 {
        out.push(0xd2);
        write_be(out, (n + 0x1_0000_0000) as u64, 4);
    } else {
        out.push(0xd3);
        let wide = (n as i128 + 0x1_0000_0000_0000_0000) as u64;
        write_be(out, wide, 8);
    }
    assert(out@ =~= old(out)@ + enc_negint(n as int));
}

/// A copy of a byte vector.
fn clone_bytes(b: &Vec<u8>) -> (r: Vec<u8>)
    ensures
        r@ == b@,
{
    let mut r: Vec<u8> = Vec::new();
    let mut i: usize = 0;
    while i < b.len()
        invariant
            i <= b.len(),
            r@ == b@.take(i as int),
        decreases b.len() - i,
    {
        r.push(b[i]);
        assert(r@ =~= b@.take(i as int + 1));
        i = i + 1;
    }
    assert(r@ =~= b@);
    r
}

/// Outcome of decoding one item from the front of a byte sequence:
/// the item and the count of bytes consumed, or too few bytes so far,
/// or bytes that no well-formed encoding produces.
pub ghost enum DecStep<T> {
    Found(T, int),
    Short,
    Bad,
}

/// `c` where it is a sensible consumed count, else 1; decoding never
/// produces anything else, and the clamp keeps recursion well-founded.
pub open spec fn clamp_consumed(c: int, len: int) -> int {
    if 1 <= c <= len {
        c
    } else {
        1
    }
}

/// Decodes a string body of `n` bytes at offset `off`.
pub open spec fn dec_str_body(b: Seq<u8>, off: int, n: int) -> DecStep<ValueView> {
    if b.len() < off + n {
        DecStep::Short
    } else {
        let p = b.subrange(off, off + n);
        if vstd::utf8::valid_utf8(p) {
            DecStep::Found(ValueView::Str(vstd::utf8::decode_utf8(p)), off + n)
        } else {
            DecStep::Bad
        }
    }
}

/// Decodes a binary body of `n` bytes at offset `off`.
pub open spec fn dec_bin_body(b: Seq<u8>, off: int, n: int) -> DecStep<ValueView> {
    if b.len() < off + n {
        DecStep::Short
    } else {
        DecStep::Found(ValueView::Bin(b.subrange(off, off + n)), off + n)
    }
}

/// Decodes one value from the front of `b`.
pub open spec fn dec_value(b: Seq<u8>) -> DecStep<ValueView>
    decreases b.len(), 0int, 1int,
{
    if b.len() == 0 {
        DecStep::Short
    } else {
        let m = b[0];
        if m <= 0x7F {
            DecStep::Found(ValueView::Int(m as int), 1)
        } else if m <= 0x8F {
            dec_container_pairs(b, 1, (m - 0x80) as nat)
        } else if m <= 0x9F {
            dec_container_list(b, 1, (m - 0x90) as nat)
        } else if m <= 0xBF {
            dec_str_body(b, 1, m - 0xA0)
        } else if m == 0xC0 {
            DecStep::Found(ValueView::Nil, 1)
        } else if m == 0xC2 {
            DecStep::Found(ValueView::Bool(false), 1)
        } else if m == 0xC3 {
            DecStep::Found(ValueView::Bool(true), 1)
        } else if m == 0xC4 {
            if b.len() < 2 {
                DecStep::Short
            } else {
                dec_bin_body(b, 2, b[1] as int)
            }
        } else if m == 0xC5 {
            if b.len() < 3 {
                DecStep::Short
            } else {
                dec_bin_body(b, 3, be_val(b.subrange(1, 3)) as int)
            }
        } else if m == 0xC6 {
            if b.len() < 5 {
                DecStep::Short
            } else {
                dec_bin_body(b, 5, be_val(b.subrange(1, 5)) as int)
            }
        } else if m == 0xCB {
            if b.len() < 9 {
                DecStep::Short
            } else {
                DecStep::Found(ValueView::Float(be_val(b.subrange(1, 9)) as u64), 9)
            }
        } else if m == 0xCC {
            if b.len() < 2 {
                DecStep::Short
            } else {
                DecStep::Found(ValueView::Int(b[1] as int), 2)
            }
        } else if m == 0xCD {
            if b.len() < 3 {
                DecStep::Short
            } else {
                DecStep::Found(ValueView::Int(be_val(b.subrange(1, 3)) as int), 3)
            }
        } else if m == 0xCE {
            if b.len() < 5 {
                DecStep::Short
            } else {
                DecStep::Found(ValueView::Int(be_val(b.subrange(1, 5)) as int), 5)
            }
        } else if m == 0xCF {
            if b.len() < 9 {
                DecStep::Short
            } else {
                DecStep::Found(ValueView::Int(be_val(b.subrange(1, 9)) as int), 9)
            }
        } else if m == 0xD0 {
            if b.len() < 2 {
                DecStep::Short
            } else {
                let x = b[1] as int;
                DecStep::Found(
                    ValueView::Int(if x >= 0x80 { x - 0x100 } else { x }),
                    2,
                )
            }
        } else if m == 0xD1 {
            if b.len() < 3 {
                DecStep::Short
            } else {
                let x = be_val(b.subrange(1, 3)) as int;
                DecStep::Found(
                    ValueView::Int(if x >= 0x8000 { x - 0x1_0000 } else { x }),
                    3,
                )
            }
        } else if m == 0xD2 {
            if b.len() < 5 {
                DecStep::Short
            } else {
                let x = be_val(b.subrange(1, 5)) as int;
                DecStep::Found(
                    ValueView::Int(if x >= 0x8000_0000 { x - 0x1_0000_0000 } else { x }),
                    5,
                )
            }
        } else if m == 0xD3 {
            if b.len() < 9 {
                DecStep::Short
            } else {
                let x = be_val(b.subrange(1, 9)) as int;
                DecStep::Found(
                    ValueView::Int(
                        if x >= 0x8000_0000_0000_0000 {
                            x - 0x1_0000_0000_0000_0000
                        } else {
                            x
                        },
                    ),
                    9,
                )
            }
        } else if m == 0xD9 {
            if b.len() < 2 {
                DecStep::Short
            } else {
                dec_str_body(b, 2, b[1] as int)
            }
        } else if m == 0xDA {
            if b.len() < 3 {
                DecStep::Short
            } else {
                dec_str_body(b, 3, be_val(b.subrange(1, 3)) as int)
            }
        } else if m == 0xDB {
            if b.len() < 5 {
                DecStep::Short
            } else {
                dec_str_body(b, 5, be_val(b.subrange(1, 5)) as int)
            }
        } else if m == 0xDC {
            if b.len() < 3 {
                DecStep::Short
            } else {
                dec_container_list(b, 3, be_val(b.subrange(1, 3)))
            }
        } else if m == 0xDD {
            if b.len() < 5 {
                DecStep::Short
            } else {
                dec_container_list(b, 5, be_val(b.subrange(1, 5)))
            }
        } else if m == 0xDE {
            if b.len() < 3 {
                DecStep::Short
            } else {
                dec_container_pairs(b, 3, be_val(b.subrange(1, 3)))
            }
        } else if m == 0xDF {
            if b.len() < 5 {
                DecStep::Short
            } else {
                dec_container_pairs(b, 5, be_val(b.subrange(1, 5)))
            }
        } else if m >= 0xE0 {
            DecStep::Found(ValueView::Int(m as int - 0x100), 1)
        } else {
            // 0xC1, the extension markers 0xC7..0xC9 and 0xD4..0xD8, and the
            // 32-bit float marker 0xCA: nothing this protocol's peer emits.
            DecStep::Bad
        }
    }
}

/// Decodes the elements of an array whose header ends at offset `off`.
pub open spec fn dec_container_list(b: Seq<u8>, off: int, n: nat) -> DecStep<ValueView>
    decreases b.len(), 0int, 0int,
{
    if off < 1 || b.len() < off {
        DecStep::Short
    } else {
        match dec_list(b.skip(off), n) {
            DecStep::Found(items, c) => DecStep::Found(ValueView::Array(items), off + c),
            DecStep::Short => DecStep::Short,
            DecStep::Bad => DecStep::Bad,
        }
    }
}

/// Decodes the pairs of a mapping whose header ends at offset `off`.
pub open spec fn dec_container_pairs(b: Seq<u8>, off: int, n: nat) -> DecStep<ValueView>
    decreases b.len(), 0int, 0int,
{
    if off < 1 || b.len() < off {
        DecStep::Short
    } else {
        match dec_pairs(b.skip(off), n) {
            DecStep::Found(pairs, c) => DecStep::Found(ValueView::Mapping(pairs), off + c),
            DecStep::Short => DecStep::Short,
            DecStep::Bad => DecStep::Bad,
        }
    }
}

/// Decodes `n` consecutive values from the front of `b`.
pub open spec fn dec_list(b: Seq<u8>, n: nat) -> DecStep<Seq<ValueView>>
    decreases b.len(), 1int, n,
{
    if n == 0 {
        DecStep::Found(Seq::empty(), 0)
    } else if b.len() == 0 {
        DecStep::Short
    } else {
        match dec_value(b) {
            DecStep::Found(v, c) => {
                let cc = clamp_consumed(c, b.len() as int);
                match dec_list(b.skip(cc), (n - 1) as nat) {
                    DecStep::Found(vs, c2) => DecStep::Found(seq![v] + vs, cc + c2),
                    DecStep::Short => DecStep::Short,
                    DecStep::Bad => DecStep::Bad,
                }
            },
            DecStep::Short => DecStep::Short,
            DecStep::Bad => DecStep::Bad,
        }
    }
}

/// Decodes `n` consecutive key-value pairs from the front of `b`.
pub open spec fn dec_pairs(b: Seq<u8>, n: nat) -> DecStep<Seq<(ValueView, ValueView)>>
    decreases b.len(), 2int, n,
{
    if n == 0 {
        DecStep::Found(Seq::empty(), 0)
    } else if b.len() == 0 {
        DecStep::Short
    } else {
        match dec_value(b) {
            DecStep::Found(k, c) => {
                let cc = clamp_consumed(c, b.len() as int);
                let r1 = b.skip(cc);
                if r1.len() == 0 {
                    DecStep::Short
                } else {
                    match dec_value(r1) {
                    DecStep::Found(v, c2) => {
                        let cc2 = clamp_consumed(c2, r1.len() as int);
                        match dec_pairs(r1.skip(cc2), (n - 1) as nat) {
                            DecStep::Found(ps, c3) => DecStep::Found(
                                seq![(k, v)] + ps,
                                cc + cc2 + c3,
                            ),
                            DecStep::Short => DecStep::Short,
                            DecStep::Bad => DecStep::Bad,
                        }
                    },
                    DecStep::Short => DecStep::Short,
                    DecStep::Bad => DecStep::Bad,
                    }
                }
            },
            DecStep::Short => DecStep::Short,
            DecStep::Bad => DecStep::Bad,
        }
    }
}

/// Appends the canonical encoding of `v` to `out`.
pub fn encode_value(v: &Value, out: &mut Vec<u8>)
    requires
        view_wf(v@),
    ensures
        final(out)@ == old(out)@ + enc_value(v@),
    decreases *v,
{
    match v {
        Value::Nil => {
            out.push(0xc0);
            assert(out@ =~= old(out)@ + enc_value(v@));
        },
        Value::Bool(b) => {
            out.push(if *b { 0xc3 } else { 0xc2 });
            assert(out@ =~= old(out)@ + enc_value(v@));
        },
        Value::UInt(n) => {
            encode_uint(*n, out);
        },
        Value::NegInt(n) => {
            if *n >= 0 {
                encode_uint(*n as u64, out);
            } else {
                encode_negint(*n, out);
            }
        },
        Value::Float(bits) => {
            out.push(0xcb);
            write_be(out, *bits, 8);
            assert(out@ =~= old(out)@ + enc_value(v@));
        },
        Value::Str(s) => {
            let mut b = s.as_str().as_bytes_vec();
            let n = b.len();
            if n < 32 {
                out.push((0xa0 + n) as u8);
            } else if n <= 0xFF {
                out.push(0xd9);
                write_be(out, n as u64, 1);
            } else if n <= 0xFFFF {
                out.push(0xda);
                write_be(out, n as u64, 2);
            } else {
                out.push(0xdb);
                write_be(out, n as u64, 4);
            }
            out.append(&mut b);
            assert(out@ =~= old(out)@ + enc_value(v@));
        },
        Value::Bin(payload) => {
            let n = payload.len();
            if n <= 0xFF {
                out.push(0xc4);
                write_be(out, n as u64, 1);
            } else if n <= 0xFFFF {
                out.push(0xc5);
                write_be(out, n as u64, 2);
            } else {
                out.push(0xc6);
                write_be(out, n as u64, 4);
            }
            let mut b = clone_bytes(payload);
            out.append(&mut b);
            assert(out@ =~= old(out)@ + enc_value(v@));
        },
        Value::Array(items) => {
            let ghost vs = v@->Array_0;
            proof {
                lemma_views_from(items@, 0);
            }
            let n = items.len();
            if n < 16 {
                out.push((0x90 + n) as u8);
            } else if n <= 0xFFFF {
                out.push(0xdc);
                write_be(out, n as u64, 2);
            } else {
                out.push(0xdd);
                write_be(out, n as u64, 4);
            }
            proof {
                assert(out@ =~= old(out)@ + array_header(vs.len()));
            }
            let ghost base = out@;
            let mut i: usize = 0;
            while i < items.len()
                invariant
                    i <= items.len(),
                    view_wf(v@),
                    *v matches Value::Array(its) && its == *items,
                    vs == v@->Array_0,
                    vs.len() == items@.len(),
                    forall|j: int| 0 <= j < items@.len() ==> vs[j] == value_view(items@[j]),
                    out@ + enc_list(vs, i as int) == base + enc_list(vs, 0),
                decreases items.len() - i,
            {
                proof {
                    lemma_views_wf_from(vs, 0);
                    assert(view_wf(vs[i as int]));
                }
                encode_value(&items[i], out);
                proof {
                    assert(out@ + enc_list(vs, i as int + 1) =~= base + enc_list(vs, 0));
                }
                i = i + 1;
            }
            proof {
                assert(enc_list(vs, items@.len() as int) =~= Seq::<u8>::empty());
                assert(out@ + enc_list(vs, vs.len() as int) =~= out@);
                assert(out@ =~= old(out)@ + enc_value(v@));
            }
        },
        Value::Mapping(pairs) => {
            let ghost vs = v@->Mapping_0;
            proof {
                lemma_pair_views_from(pairs@, 0);
            }
            let n = pairs.len();
            if n < 16 {
                out.push((0x80 + n) as u8);
            } else if n <= 0xFFFF {
                out.push(0xde);
                write_be(out, n as u64, 2);
            } else {
                out.push(0xdf);
                write_be(out, n as u64, 4);
            }
            proof {
                assert(out@ =~= old(out)@ + map_header(vs.len()));
            }
            let ghost base = out@;
            let mut i: usize = 0;
            while i < pairs.len()
                invariant
                    i <= pairs.len(),
                    view_wf(v@),
                    *v matches Value::Mapping(ps) && ps == *pairs,
                    vs == v@->Mapping_0,
                    vs.len() == pairs@.len(),
                    forall|j: int|
                        0 <= j < pairs@.len() ==> vs[j] == (
                            value_view(pairs@[j].0),
                            value_view(pairs@[j].1),
                        ),
                    out@ + enc_pairs(vs, i as int) == base + enc_pairs(vs, 0),
                decreases pairs.len() - i,
            {
                proof {
                    lemma_pair_views_wf_from(vs, 0);
                    assert(view_wf(vs[i as int].0) && view_wf(vs[i as int].1));
                }
                encode_value(&pairs[i].0, out);
                encode_value(&pairs[i].1, out);
                proof {
                    assert(out@ + enc_pairs(vs, i as int + 1) =~= base + enc_pairs(vs, 0));
                }
                i = i + 1;
            }
            proof {
                assert(enc_pairs(vs, pairs@.len() as int) =~= Seq::<u8>::empty());
                assert(out@ + enc_pairs(vs, vs.len() as int) =~= out@);
                assert(out@ =~= old(out)@ + enc_value(v@));
            }
        },
    }
}

} // verus!

verus! {

/// The powers of 256 the codec's width fields use.
pub proof fn lemma_pow256_table()
    ensures
        pow256(0) == 1,
        pow256(1) == 0x100,
        pow256(2) == 0x1_0000,
        pow256(4) == 0x1_0000_0000,
        pow256(8) == 0x1_0000_0000_0000_0000,
{
    assert(pow256(0) == 1);
    assert(pow256(1) == 0x100);
    assert(pow256(2) == 0x1_0000);
    assert(pow256(3) == 0x100_0000);
    assert(pow256(4) == 0x1_0000_0000);
    assert(pow256(5) == 0x100_0000_0000);
    assert(pow256(6) == 0x1_0000_0000_0000);
    assert(pow256(7) == 0x100_0000_0000_0000);
    assert(pow256(8) == 0x1_0000_0000_0000_0000);
}

/// How a three-part concatenation splits back into its parts.
pub proof fn lemma_concat3(a: Seq<u8>, c: Seq<u8>, d: Seq<u8>)
    ensures
        ((a + c) + d).len() == a.len() + c.len() + d.len(),
        forall|i: int| 0 <= i < a.len() ==> ((a + c) + d)[i] == a[i],
        ((a + c) + d).subrange(a.len() as int, (a.len() + c.len()) as int) == c,
        ((a + c) + d).skip(a.len() as int) == c + d,
        ((a + c) + d).skip((a.len() + c.len()) as int) == d,
{
    let b = (a + c) + d;
    assert(b.subrange(a.len() as int, (a.len() + c.len()) as int) =~= c);
    assert(b.skip(a.len() as int) =~= c + d);
    assert(b.skip((a.len() + c.len()) as int) =~= d);
}

/// Every value encoding starts with at least its marker byte.
pub proof fn lemma_enc_value_len(v: ValueView)
    ensures
        enc_value(v).len() >= 1,
{
    match v {
        ValueView::Nil => {},
        ValueView::Bool(_) => {},
        ValueView::Int(i) => {
            if i >= 0 {
                if i > 0x7F {
                    if i <= 0xFF {
                        lemma_be_bytes_len(i as nat, 1);
                    } else if i <= 0xFFFF {
                        lemma_be_bytes_len(i as nat, 2);
                    } else if i <= 0xFFFF_FFFF {
                        lemma_be_bytes_len(i as nat, 4);
                    } else {
                        lemma_be_bytes_len(i as nat, 8);
                    }
                }
            } else {
                if i < -32 {
                    if i >= -0x80 {
                        lemma_be_bytes_len((i + 0x100) as nat, 1);
                    } else if i >= -0x8000 {
                        lemma_be_bytes_len((i + 0x1_0000) as nat, 2);
                    } else if i >= -0x8000_0000 {
                        lemma_be_bytes_len((i + 0x1_0000_0000) as nat, 4);
                    } else {
                        lemma_be_bytes_len((i + 0x1_0000_0000_0000_0000) as nat, 8);
                    }
                }
            }
        },
        ValueView::Float(bits) => {
            lemma_be_bytes_len(bits as nat, 8);
        },
        ValueView::Str(_) => {},
        ValueView::Bin(_) => {},
        ValueView::Array(_) => {},
        ValueView::Mapping(_) => {},
    }
}

/// Decoding a marker byte, a `w`-byte big-endian field holding `n`, and a
/// tail finds the marker, the field and the tail again.
pub proof fn lemma_marker_be(m: u8, n: nat, w: nat, tail: Seq<u8>)
    requires
        n < pow256(w),
    ensures
        ((seq![m] + be_bytes(n, w)) + tail).len() == 1 + w + tail.len(),
        ((seq![m] + be_bytes(n, w)) + tail)[0] == m,
        ((seq![m] + be_bytes(n, w)) + tail).subrange(1, 1 + w as int) == be_bytes(n, w),
        be_val(((seq![m] + be_bytes(n, w)) + tail).subrange(1, 1 + w as int)) == n,
        ((seq![m] + be_bytes(n, w)) + tail).skip(1 + w as int) == tail,
{
    lemma_be_bytes_len(n, w);
    lemma_be_val_be_bytes(n, w);
    lemma_concat3(seq![m], be_bytes(n, w), tail);
}

} // verus!

verus! {

/// Decoding a marker, a `w`-byte big-endian field holding `n`, a payload
/// and a tail finds each part again.
pub proof fn lemma_marker_be_payload(m: u8, n: nat, w: nat, p: Seq<u8>, rest: Seq<u8>)
    requires
        n < pow256(w),
    ensures
        (((seq![m] + be_bytes(n, w)) + p) + rest).len() == 1 + w + p.len() + rest.len(),
        (((seq![m] + be_bytes(n, w)) + p) + rest)[0] == m,
        be_val((((seq![m] + be_bytes(n, w)) + p) + rest).subrange(1, 1 + w as int)) == n,
        (((seq![m] + be_bytes(n, w)) + p) + rest).subrange(
            1 + w as int,
            (1 + w + p.len()) as int,
        ) == p,
        (((seq![m] + be_bytes(n, w)) + p) + rest).skip(1 + w as int) == p + rest,
        (((seq![m] + be_bytes(n, w)) + p) + rest).skip((1 + w + p.len()) as int) == rest,
{
    lemma_be_bytes_len(n, w);
    lemma_be_val_be_bytes(n, w);
    let b = ((seq![m] + be_bytes(n, w)) + p) + rest;
    assert(b.subrange(1, 1 + w as int) =~= be_bytes(n, w));
    assert(b.subrange(1 + w as int, (1 + w + p.len()) as int) =~= p);
    assert(b.skip(1 + w as int) =~= p + rest);
    assert(b.skip((1 + w + p.len()) as int) =~= rest);
}

/// Round trip for one value: decoding a canonical encoding followed by
/// anything finds the value back and consumes exactly the encoding.
pub proof fn lemma_rt_value(v: ValueView, rest: Seq<u8>)
    requires
        view_wf(v),
    ensures
        dec_value(enc_value(v) + rest) == DecStep::Found(v, enc_value(v).len() as int),
    decreases v, 0int, 0int,
{
    lemma_pow256_table();
    let b = enc_value(v) + rest;
    match v {
        ValueView::Nil => {
            assert(b[0] == 0xc0);
        },
        ValueView::Bool(x) => {
            assert(b[0] == (if x { 0xc3u8 } else { 0xc2u8 }));
        },
        ValueView::Int(i) => {
            if i >= 0 {
                if i <= 0x7F {
                    assert(b[0] == i as u8);
                } else if i <= 0xFF {
                    lemma_marker_be(0xcc, i as nat, 1, rest);
                    assert(b[1] == be_bytes(i as nat, 1)[0]);
                    assert(be_bytes(i as nat, 1)[0] == i as u8);
                } else if i <= 0xFFFF {
                    lemma_marker_be(0xcd, i as nat, 2, rest);
                } else if i <= 0xFFFF_FFFF {
                    lemma_marker_be(0xce, i as nat, 4, rest);
                } else {
                    lemma_marker_be(0xcf, i as nat, 8, rest);
                }
            } else {
                if i >= -32 {
                    assert(b[0] == (i + 0x100) as u8);
                } else if i >= -0x80 {
                    lemma_marker_be(0xd0, (i + 0x100) as nat, 1, rest);
                    assert(b[1] == be_bytes((i + 0x100) as nat, 1)[0]);
                    assert(be_bytes((i + 0x100) as nat, 1)[0] == (i + 0x100) as u8);
                } else if i >= -0x8000 {
                    lemma_marker_be(0xd1, (i + 0x1_0000) as nat, 2, rest);
                } else if i >= -0x8000_0000 {
                    lemma_marker_be(0xd2, (i + 0x1_0000_0000) as nat, 4, rest);
                } else {
                    lemma_marker_be(0xd3, (i + 0x1_0000_0000_0000_0000) as nat, 8, rest);
                }
            }
        },
        ValueView::Float(bits) => {
            lemma_marker_be(0xcb, bits as nat, 8, rest);
        },
        ValueView::Str(s) => {
            let p = vstd::utf8::encode_utf8(s);
            let n = p.len();
            vstd::utf8::encode_utf8_valid_utf8(s);
            vstd::utf8::encode_utf8_decode_utf8(s);
            if n < 32 {
                lemma_concat3(seq![(0xa0 + n) as u8], p, rest);
                assert(b[0] == (0xa0 + n) as u8);
                assert(b.subrange(1, 1 + n as int) == p);
            } else if n <= 0xFF {
                assert(b =~= ((seq![0xd9u8] + be_bytes(n, 1)) + p) + rest);
                lemma_marker_be_payload(0xd9, n, 1, p, rest);
                let bb = ((seq![0xd9u8] + be_bytes(n, 1)) + p) + rest;
                assert(bb[1] == be_bytes(n, 1)[0]);
                assert(be_bytes(n, 1)[0] == n as u8);
                assert(bb.subrange(2, (2 + n) as int) == p);
            } else if n <= 0xFFFF {
                assert(b =~= ((seq![0xdau8] + be_bytes(n, 2)) + p) + rest);
                lemma_marker_be_payload(0xda, n, 2, p, rest);
            } else {
                assert(b =~= ((seq![0xdbu8] + be_bytes(n, 4)) + p) + rest);
                lemma_marker_be_payload(0xdb, n, 4, p, rest);
            }
        },
        ValueView::Bin(p) => {
            let n = p.len();
            if n <= 0xFF {
                assert(b =~= ((seq![0xc4u8] + be_bytes(n, 1)) + p) + rest);
                lemma_marker_be_payload(0xc4, n, 1, p, rest);
                let bb = ((seq![0xc4u8] + be_bytes(n, 1)) + p) + rest;
                assert(bb[1] == be_bytes(n, 1)[0]);
                assert(be_bytes(n, 1)[0] == n as u8);
                assert(bb.subrange(2, (2 + n) as int) == p);
            } else if n <= 0xFFFF {
                assert(b =~= ((seq![0xc5u8] + be_bytes(n, 2)) + p) + rest);
                lemma_marker_be_payload(0xc5, n, 2, p, rest);
            } else {
                assert(b =~= ((seq![0xc6u8] + be_bytes(n, 4)) + p) + rest);
                lemma_marker_be_payload(0xc6, n, 4, p, rest);
            }
        },
        ValueView::Array(items) => {
            let ll = enc_list(items, 0);
            let n = items.len();
            lemma_rt_list(items, 0, rest);
            assert(items.skip(0) =~= items);
            if n < 16 {
                lemma_concat3(seq![(0x90 + n) as u8], ll, rest);
                assert(b[0] == (0x90 + n) as u8);
                assert(b.skip(1) == ll + rest);
            } else if n <= 0xFFFF {
                assert(b =~= ((seq![0xdcu8] + be_bytes(n, 2)) + ll) + rest);
                lemma_marker_be_payload(0xdc, n, 2, ll, rest);
            } else {
                assert(b =~= ((seq![0xddu8] + be_bytes(n, 4)) + ll) + rest);
                lemma_marker_be_payload(0xdd, n, 4, ll, rest);
            }
        },
        ValueView::Mapping(pairs) => {
            let ll = enc_pairs(pairs, 0);
            let n = pairs.len();
            lemma_rt_pairs(pairs, 0, rest);
            assert(pairs.skip(0) =~= pairs);
            if n < 16 {
                lemma_concat3(seq![(0x80 + n) as u8], ll, rest);
                assert(b[0] == (0x80 + n) as u8);
                assert(b.skip(1) == ll + rest);
            } else if n <= 0xFFFF {
                assert(b =~= ((seq![0xdeu8] + be_bytes(n, 2)) + ll) + rest);
                lemma_marker_be_payload(0xde, n, 2, ll, rest);
            } else {
                assert(b =~= ((seq![0xdfu8] + be_bytes(n, 4)) + ll) + rest);
                lemma_marker_be_payload(0xdf, n, 4, ll, rest);
            }
        },
    }
}

/// Round trip for the elements of an array from position `i` on.
pub proof fn lemma_rt_list(items: Seq<ValueView>, i: int, rest: Seq<u8>)
    requires
        0 <= i <= items.len(),
        views_wf_from(items, i),
    ensures
        dec_list(enc_list(items, i) + rest, (items.len() - i) as nat) == DecStep::Found(
            items.skip(i),
            enc_list(items, i).len() as int,
        ),
    decreases items, 1int, items.len() - i,
{
    let b = enc_list(items, i) + rest;
    if i == items.len() {
        assert(items.skip(i) =~= Seq::<ValueView>::empty());
        assert(enc_list(items, i) =~= Seq::<u8>::empty());
    } else {
        let e0 = enc_value(items[i]);
        let l1 = enc_list(items, i + 1);
        lemma_enc_value_len(items[i]);
        assert(b =~= e0 + (l1 + rest));
        lemma_rt_value(items[i], l1 + rest);
        lemma_concat3(e0, l1, rest);
        assert(b.skip(e0.len() as int) == l1 + rest);
        lemma_rt_list(items, i + 1, rest);
        assert(seq![items[i]] + items.skip(i + 1) =~= items.skip(i));
    }
}

/// Round trip for the pairs of a mapping from position `i` on.
#[verifier::rlimit(60)]
pub proof fn lemma_rt_pairs(pairs: Seq<(ValueView, ValueView)>, i: int, rest: Seq<u8>)
    requires
        0 <= i <= pairs.len(),
        pair_views_wf_from(pairs, i),
    ensures
        dec_pairs(enc_pairs(pairs, i) + rest, (pairs.len() - i) as nat) == DecStep::Found(
            pairs.skip(i),
            enc_pairs(pairs, i).len() as int,
        ),
    decreases pairs, 1int, pairs.len() - i,
{
    let b = enc_pairs(pairs, i) + rest;
    if i == pairs.len() {
        assert(pairs.skip(i) =~= Seq::<(ValueView, ValueView)>::empty());
        assert(enc_pairs(pairs, i) =~= Seq::<u8>::empty());
    } else {
        let k0 = enc_value(pairs[i].0);
        let v0 = enc_value(pairs[i].1);
        let p1 = enc_pairs(pairs, i + 1);
        lemma_enc_value_len(pairs[i].0);
        lemma_enc_value_len(pairs[i].1);
        assert(b =~= k0 + (v0 + (p1 + rest)));
        lemma_rt_value(pairs[i].0, v0 + (p1 + rest));
        assert(b.skip(k0.len() as int) =~= v0 + (p1 + rest));
        let r1 = b.skip(k0.len() as int);
        lemma_rt_value(pairs[i].1, p1 + rest);
        lemma_concat3(v0, p1, rest);
        assert(r1.skip(v0.len() as int) == p1 + rest);
        lemma_rt_pairs(pairs, i + 1, rest);
        assert(seq![(pairs[i].0, pairs[i].1)] + pairs.skip(i + 1) =~= pairs.skip(i));
        assert(enc_pairs(pairs, i).len() == k0.len() + v0.len() + p1.len());
    }
}

/// Round trip for a whole buffer holding exactly one canonical encoding.
pub proof fn lemma_round_trip_value(v: ValueView)
    requires
        view_wf(v),
    ensures
        dec_value(enc_value(v)) == DecStep::Found(v, enc_value(v).len() as int),
{
    lemma_rt_value(v, Seq::empty());
    assert(enc_value(v) + Seq::<u8>::empty() =~= enc_value(v));
}

} // verus!

verus! {

/// Why a byte stream failed to decode: bytes no encoding produces, too few
/// bytes for the encoding they begin, or no bytes at all.
#[derive(Debug, Clone, Copy, PartialEq, Eq, Structural)]
pub enum DecodeError {
    Malformed,
    Truncated,
    UnexpectedEof,
}

/// Reads a `w`-byte big-endian field.
fn read_be(buf: &Vec<u8>, pos: usize, w: usize) -> (r: Result<(u64, usize), DecodeError>)
    requires
        pos <= buf.len(),
        w <= 8,
    ensures
        match r {
            Ok(p) => {
                &&& buf@.len() >= pos + w
                &&& p.1 == pos + w
                &&& p.0 as nat == be_val(buf@.subrange(pos as int, (pos + w) as int))
                &&& (p.0 as nat) < pow256(w as nat)
            },
            Err(e) => e == DecodeError::Truncated && buf@.len() < pos + w,
        },
{
    if buf.len() - pos < w {
        return Err(DecodeError::Truncated);
    }
    let mut acc: u64 = 0;
    let mut i: usize = 0;
    proof {
        lemma_pow256_table();
        assert(buf@.subrange(pos as int, pos as int) =~= Seq::<u8>::empty());
    }
    while i < w
        invariant
            pos + w <= buf.len(),
            i <= w,
            w <= 8,
            acc as nat == be_val(buf@.subrange(pos as int, (pos + i) as int)),
            (acc as nat) < pow256(i as nat),
            pow256(8) == 0x1_0000_0000_0000_0000,
            pow256(7) == 0x100_0000_0000_0000,
        decreases w - i,
    {
        let b = buf[pos + i];
        proof {
            lemma_pow256_table();
            let s0 = buf@.subrange(pos as int, (pos + i) as int);
            let s1 = buf@.subrange(pos as int, (pos + i + 1) as int);
            assert(s1.drop_last() =~= s0);
            assert(s1.last() == buf@[(pos + i) as int]);
            assert(pow256((i + 1) as nat) == 256 * pow256(i as nat));
            assert((acc as nat) * 256 + 256 <= pow256(i as nat) * 256) by (nonlinear_arith)
                requires
                    (acc as nat) < pow256(i as nat),
            ;
            assert(pow256(i as nat) <= pow256(7)) by {
                lemma_pow256_mono(i as nat, 7);
            }
            assert(pow256(i as nat) * 256 <= pow256(7) * 256) by (nonlinear_arith)
                requires
                    pow256(i as nat) <= pow256(7),
            ;
        }
        acc = acc * 256 + (b as u64);
        i = i + 1;
    }
    Ok((acc, pos + w))
}

/// Reads `n` raw bytes.
fn read_bytes(buf: &Vec<u8>, pos: usize, n: usize) -> (r: Result<(Vec<u8>, usize), DecodeError>)
    requires
        pos <= buf.len(),
    ensures
        match r {
            Ok(p) => {
                &&& buf@.len() >= pos + n
                &&& p.1 == pos + n
                &&& p.0@ == buf@.subrange(pos as int, (pos + n) as int)
            },
            Err(e) => e == DecodeError::Truncated && buf@.len() < pos + n,
        },
{
    if buf.len() - pos < n {
        return Err(DecodeError::Truncated);
    }
    let mut out: Vec<u8> = Vec::new();
    let mut i: usize = 0;
    while i < n
        invariant
            pos + n <= buf.len(),
            i <= n,
            out@ == buf@.subrange(pos as int, (pos + i) as int),
        decreases n - i,
    {
        out.push(buf[pos + i]);
        assert(out@ =~= buf@.subrange(pos as int, (pos + i + 1) as int));
        i = i + 1;
    }
    Ok((out, pos + n))
}

pub proof fn lemma_pow256_mono(a: nat, c: nat)
    requires
        a <= c,
    ensures
        pow256(a) <= pow256(c),
    decreases c,
{
    if a < c {
        lemma_pow256_mono(a, (c - 1) as nat);
        assert(pow256(c) == 256 * pow256((c - 1) as nat));
        assert(pow256((c - 1) as nat) <= 256 * pow256((c - 1) as nat)) by (nonlinear_arith)
            requires
                pow256((c - 1) as nat) >= 0,
        ;
    }
}

/// Relies on `String::from_utf8`: it succeeds exactly on valid UTF-8 input
/// and the returned string holds those very bytes.
#[verifier::external_body]
fn string_from_utf8(bytes: Vec<u8>) -> (r: Option<String>)
    ensures
        r is Some <==> vstd::utf8::valid_utf8(bytes@),
        r matches Some(s) ==> vstd::utf8::encode_utf8(s@) == bytes@,
{
    String::from_utf8(bytes).ok()
}

/// Reads a string body of `n` bytes at `start`.
fn decode_str_at(buf: &Vec<u8>, start: usize, n: usize) -> (r: Result<(Value, usize), DecodeError>)
    requires
        start <= buf.len(),
    ensures
        ({
            if buf@.len() < start + n {
                r == Err::<(Value, usize), DecodeError>(DecodeError::Truncated)
            } else {
                let p = buf@.subrange(start as int, (start + n) as int);
                if vstd::utf8::valid_utf8(p) {
                    r matches Ok(q) && q.0@ == ValueView::Str(vstd::utf8::decode_utf8(p))
                        && q.1 == start + n
                } else {
                    r == Err::<(Value, usize), DecodeError>(DecodeError::Malformed)
                }
            }
        }),
{
    match read_bytes(buf, start, n) {
        Ok((bs, end)) => {
            match string_from_utf8(bs) {
                Some(s) => {
                    proof {
                        vstd::utf8::encode_utf8_decode_utf8(s@);
                    }
                    Ok((Value::Str(s), end))
                },
                None => Err(DecodeError::Malformed),
            }
        },
        Err(e) => Err(e),
    }
}

/// Reads a binary body of `n` bytes at `start`.
fn decode_bin_at(buf: &Vec<u8>, start: usize, n: usize) -> (r: Result<(Value, usize), DecodeError>)
    requires
        start <= buf.len(),
    ensures
        ({
            if buf@.len() < start + n {
                r == Err::<(Value, usize), DecodeError>(DecodeError::Truncated)
            } else {
                r matches Ok(q) && q.0@ == ValueView::Bin(
                    buf@.subrange(start as int, (start + n) as int),
                ) && q.1 == start + n
            }
        }),
{
    match read_bytes(buf, start, n) {
        Ok((bs, end)) => Ok((Value::Bin(bs), end)),
        Err(e) => Err(e),
    }
}

} // verus!

verus! {

/// Decodes one value starting at `pos`.  The result is exactly what
/// [`dec_value`] says of the bytes from `pos` on: the decoded value and
/// the position after it, or `Truncated` when more bytes are needed, or
/// `Malformed` when the bytes fit no encoding.
pub fn decode_value(buf: &Vec<u8>, pos: usize) -> (r: Result<(Value, usize), DecodeError>)
    requires
        pos <= buf.len(),
    ensures
        match dec_value(buf@.skip(pos as int)) {
            DecStep::Found(vv, c) => r matches Ok(p) && p.0@ == vv && p.1 == pos + c && pos
                < p.1 <= buf.len(),
            DecStep::Short => r == Err::<(Value, usize), DecodeError>(DecodeError::Truncated),
            DecStep::Bad => r == Err::<(Value, usize), DecodeError>(DecodeError::Malformed),
        },
    decreases buf.len() - pos, 2int,
{
    let ghost b = buf@.skip(pos as int);
    if pos == buf.len() {
        assert(b.len() == 0);
        return Err(DecodeError::Truncated);
    }
    let m = buf[pos];
    proof {
        assert(b[0] == buf@[pos as int]);
        assert(b.len() == buf@.len() - pos);
    }
    if m <= 0x7F {
        Ok((Value::UInt(m as u64), pos + 1))
    } else if m <= 0x9F || m == 0xDC || m == 0xDD || m == 0xDE || m == 0xDF {
        decode_container(buf, pos, m)
    } else if m <= 0xBF || m == 0xD9 || m == 0xDA || m == 0xDB {
        decode_string(buf, pos, m)
    } else if m == 0xC0 {
        Ok((Value::Nil, pos + 1))
    } else if m == 0xC2 {
        Ok((Value::Bool(false), pos + 1))
    } else if m == 0xC3 {
        Ok((Value::Bool(true), pos + 1))
    } else if m == 0xC4 || m == 0xC5 || m == 0xC6 {
        decode_binary(buf, pos, m)
    } else if m == 0xCB || (0xCC <= m && m <= 0xCF) || (0xD0 <= m && m <= 0xD3) {
        decode_scalar(buf, pos, m)
    } else if m >= 0xE0 {
        Ok((Value::NegInt(m as i64 - 0x100), pos + 1))
    } else {
        Err(DecodeError::Malformed)
    }
}

/// Decodes a float or a multi-byte integer whose marker is `m`.
fn decode_scalar(buf: &Vec<u8>, pos: usize, m: u8) -> (r: Result<(Value, usize), DecodeError>)
    requires
        pos < buf.len(),
        buf[pos as int] == m,
        m == 0xCB || (0xCC <= m && m <= 0xCF) || (0xD0 <= m && m <= 0xD3),
    ensures
        match dec_value(buf@.skip(pos as int)) {
            DecStep::Found(vv, c) => r matches Ok(p) && p.0@ == vv && p.1 == pos + c && pos
                < p.1 <= buf.len(),
            DecStep::Short => r == Err::<(Value, usize), DecodeError>(DecodeError::Truncated),
            DecStep::Bad => r == Err::<(Value, usize), DecodeError>(DecodeError::Malformed),
        },
{
    let ghost b = buf@.skip(pos as int);
    proof {
        assert(b[0] == buf@[pos as int]);
        assert(b.len() == buf@.len() - pos);
    }
    let w: usize = if m == 0xCC || m == 0xD0 {
        1
    } else if m == 0xCD || m == 0xD1 {
        2
    } else if m == 0xCE || m == 0xD2 {
        4
    } else {
        8
    };
    match read_be(buf, pos + 1, w) {
        Ok((x, end)) => {
            proof {
                lemma_pow256_table();
                assert(b.subrange(1, 1 + w as int) =~= buf@.subrange(
                    (pos + 1) as int,
                    (pos + 1 + w) as int,
                ));
                assert(b[1] == buf@[(pos + 1) as int]);
                if w == 1 {
                    let s1 = buf@.subrange((pos + 1) as int, (pos + 2) as int);
                    assert(s1.drop_last() =~= Seq::<u8>::empty());
                    assert(s1.last() == buf@[(pos + 1) as int]);
                    assert(be_val(s1) == b[1] as nat);
                }
            }
            let v = if m == 0xCB {
                Value::Float(x)
            } else if m <= 0xCF {
                Value::UInt(x)
            } else if m == 0xD0 {
                if x >= 0x80 {
                    Value::NegInt(x as i64 - 0x100)
                } else {
                    Value::UInt(x)
                }
            } else if m == 0xD1 {
                if x >= 0x8000 {
                    Value::NegInt(x as i64 - 0x1_0000)
                } else {
                    Value::UInt(x)
                }
            } else if m == 0xD2 {
                if x >= 0x8000_0000 {
                    Value::NegInt(x as i64 - 0x1_0000_0000)
                } else {
                    Value::UInt(x)
                }
            } else {
                if x >= 0x8000_0000_0000_0000 {
                    let sv: i128 = x as i128 - 0x1_0000_0000_0000_0000;
                    Value::NegInt(sv as i64)
                } else {
                    Value::UInt(x)
                }
            };
            Ok((v, pos + 1 + w))
        },
        Err(e) => Err(e),
    }
}

/// Decodes a string whose marker is `m`.
fn decode_string(buf: &Vec<u8>, pos: usize, m: u8) -> (r: Result<(Value, usize), DecodeError>)
    requires
        pos < buf.len(),
        buf[pos as int] == m,
        (0xA0 <= m && m <= 0xBF) || m == 0xD9 || m == 0xDA || m == 0xDB,
    ensures
        match dec_value(buf@.skip(pos as int)) {
            DecStep::Found(vv, c) => r matches Ok(p) && p.0@ == vv && p.1 == pos + c && pos
                < p.1 <= buf.len(),
            DecStep::Short => r == Err::<(Value, usize), DecodeError>(DecodeError::Truncated),
            DecStep::Bad => r == Err::<(Value, usize), DecodeError>(DecodeError::Malformed),
        },
{
    let ghost b = buf@.skip(pos as int);
    proof {
        assert(b[0] == buf@[pos as int]);
        assert(b.len() == buf@.len() - pos);
    }
    if m <= 0xBF {
        let n = (m - 0xA0) as usize;
        let r = decode_str_at(buf, pos + 1, n);
        proof {
            if pos + 1 + n <= buf@.len() {
                assert(b.subrange(1, 1 + n as int) =~= buf@.subrange(
                    (pos + 1) as int,
                    (pos + 1 + n) as int,
                ));
            }
        }
        r
    } else {
        let w: usize = if m == 0xD9 {
            1
        } else if m == 0xDA {
            2
        } else {
            4
        };
        match read_be(buf, pos + 1, w) {
            Ok((x, hend)) => {
                proof {
                    lemma_pow256_table();
                    lemma_pow256_mono(w as nat, 4);
                }
                let n = x as usize;
                proof {
                    assert(b.subrange(1, 1 + w as int) =~= buf@.subrange(
                        (pos + 1) as int,
                        (pos + 1 + w) as int,
                    ));
                    assert(b[1] == buf@[(pos + 1) as int]);
                    if w == 1 {
                        let s1 = buf@.subrange((pos + 1) as int, (pos + 2) as int);
                        assert(s1.drop_last() =~= Seq::<u8>::empty());
                        assert(s1.last() == buf@[(pos + 1) as int]);
                        assert(be_val(s1) == b[1] as nat);
                    }
                }
                let r = decode_str_at(buf, hend, n);
                proof {
                    if hend + n <= buf@.len() {
                        assert(b.subrange(1 + w as int, 1 + w + n as int) =~= buf@.subrange(
                            hend as int,
                            (hend + n) as int,
                        ));
                    }
                }
                r
            },
            Err(e) => Err(e),
        }
    }
}

/// Decodes a binary payload whose marker is `m`.
fn decode_binary(buf: &Vec<u8>, pos: usize, m: u8) -> (r: Result<(Value, usize), DecodeError>)
    requires
        pos < buf.len(),
        buf[pos as int] == m,
        m == 0xC4 || m == 0xC5 || m == 0xC6,
    ensures
        match dec_value(buf@.skip(pos as int)) {
            DecStep::Found(vv, c) => r matches Ok(p) && p.0@ == vv && p.1 == pos + c && pos
                < p.1 <= buf.len(),
            DecStep::Short => r == Err::<(Value, usize), DecodeError>(DecodeError::Truncated),
            DecStep::Bad => r == Err::<(Value, usize), DecodeError>(DecodeError::Malformed),
        },
{
    let ghost b = buf@.skip(pos as int);
    proof {
        assert(b[0] == buf@[pos as int]);
        assert(b.len() == buf@.len() - pos);
    }
    let w: usize = if m == 0xC4 {
        1
    } else if m == 0xC5 {
        2
    } else {
        4
    };
    match read_be(buf, pos + 1, w) {
        Ok((x, hend)) => {
            proof {
                lemma_pow256_table();
                lemma_pow256_mono(w as nat, 4);
            }
            let n = x as usize;
            proof {
                assert(b.subrange(1, 1 + w as int) =~= buf@.subrange(
                    (pos + 1) as int,
                    (pos + 1 + w) as int,
                ));
                assert(b[1] == buf@[(pos + 1) as int]);
                if w == 1 {
                    let s1 = buf@.subrange((pos + 1) as int, (pos + 2) as int);
                    assert(s1.drop_last() =~= Seq::<u8>::empty());
                    assert(s1.last() == buf@[(pos + 1) as int]);
                    assert(be_val(s1) == b[1] as nat);
                }
            }
            let r = decode_bin_at(buf, hend, n);
            proof {
                if hend + n <= buf@.len() {
                    assert(b.subrange(1 + w as int, 1 + w + n as int) =~= buf@.subrange(
                        hend as int,
                        (hend + n) as int,
                    ));
                }
            }
            r
        },
        Err(e) => Err(e),
    }
}

/// Decodes an array or a mapping whose marker is `m`.
fn decode_container(buf: &Vec<u8>, pos: usize, m: u8) -> (r: Result<(Value, usize), DecodeError>)
    requires
        pos < buf.len(),
        buf[pos as int] == m,
        (0x80 <= m && m <= 0x9F) || m == 0xDC || m == 0xDD || m == 0xDE || m == 0xDF,
    ensures
        match dec_value(buf@.skip(pos as int)) {
            DecStep::Found(vv, c) => r matches Ok(p) && p.0@ == vv && p.1 == pos + c && pos
                < p.1 <= buf.len(),
            DecStep::Short => r == Err::<(Value, usize), DecodeError>(DecodeError::Truncated),
            DecStep::Bad => r == Err::<(Value, usize), DecodeError>(DecodeError::Malformed),
        },
    decreases buf.len() - pos, 1int,
{
    let ghost b = buf@.skip(pos as int);
    proof {
        assert(b[0] == buf@[pos as int]);
        assert(b.len() == buf@.len() - pos);
    }
    if m <= 0x8F {
        let n = (m - 0x80) as usize;
        let r = decode_pairs_run(buf, pos + 1, n);
        proof {
            lemma_glue(buf@, pos as int, 1);
        }
        r
    } else if m <= 0x9F {
        let n = (m - 0x90) as usize;
        let r = decode_list_run(buf, pos + 1, n);
        proof {
            lemma_glue(buf@, pos as int, 1);
        }
        r
    } else {
        let w: usize = if m == 0xDC || m == 0xDE {
            2
        } else {
            4
        };
        match read_be(buf, pos + 1, w) {
            Ok((x, hend)) => {
                proof {
                    lemma_pow256_table();
                    lemma_pow256_mono(w as nat, 4);
                }
                let n = x as usize;
                proof {
                    assert(b.subrange(1, 1 + w as int) =~= buf@.subrange(
                        (pos + 1) as int,
                        (pos + 1 + w) as int,
                    ));
                }
                let r = if m == 0xDC || m == 0xDD {
                    decode_list_run(buf, hend, n)
                } else {
                    decode_pairs_run(buf, hend, n)
                };
                proof {
                    lemma_glue(buf@, pos as int, 1 + w as int);
                }
                r
            },
            Err(e) => Err(e),
        }
    }
}

/// Relates container decoding through an absolute offset to the relative
/// offset the specification uses.
proof fn lemma_glue(full: Seq<u8>, pos: int, off: int)
    requires
        0 <= pos,
        1 <= off,
        pos + off <= full.len(),
    ensures
        full.skip(pos).skip(off) == full.skip(pos + off),
        full.skip(pos).len() == full.len() - pos,
{
    assert(full.skip(pos).skip(off) =~= full.skip(pos + off));
}


/// Decodes `n` consecutive values starting at `start`.
#[verifier::rlimit(60)]
fn decode_list_run(buf: &Vec<u8>, start: usize, n: usize) -> (r: Result<
    (Value, usize),
    DecodeError,
>)
    requires
        start <= buf.len(),
    ensures
        match dec_list(buf@.skip(start as int), n as nat) {
            DecStep::Found(vs, c) => r matches Ok(p) && p.0@ == ValueView::Array(vs) && p.1 == start
                + c && start <= p.1 <= buf.len(),
            DecStep::Short => r == Err::<(Value, usize), DecodeError>(DecodeError::Truncated),
            DecStep::Bad => r == Err::<(Value, usize), DecodeError>(DecodeError::Malformed),
        },
    decreases buf.len() - start, 3int,
{
    let mut items: Vec<Value> = Vec::new();
    let mut cur: usize = start;
    let mut i: usize = 0;
    proof {
        crate::value::lemma_seq_view(items@);
        assert(crate::value::seq_view(items@) =~= Seq::<ValueView>::empty());
    }
    while i < n
        invariant
            start <= cur <= buf.len(),
            i <= n,
            crate::value::seq_view(items@).len() == i,
            dec_list(buf@.skip(start as int), n as nat) == (match dec_list(
                buf@.skip(cur as int),
                (n - i) as nat,
            ) {
                DecStep::Found(vs, c) => DecStep::Found(
                    crate::value::seq_view(items@) + vs,
                    (cur - start) + c,
                ),
                DecStep::Short => DecStep::Short,
                DecStep::Bad => DecStep::Bad,
            }),
        decreases n - i,
    {
        let ghost bcur = buf@.skip(cur as int);
        match decode_value(buf, cur) {
            Ok((v, end)) => {
                proof {
                    let vs_old = crate::value::seq_view(items@);
                    assert(bcur.len() > 0);
                    let c = end - cur;
                    assert(clamp_consumed(c as int, bcur.len() as int) == c);
                    assert(bcur.skip(c as int) =~= buf@.skip(end as int));
                    assert(crate::value::seq_view(items@.push(v)) =~= crate::value::seq_view(
                        items@,
                    ).push(v@));
                    assert(vs_old + (seq![v@] + crate::value::seq_view(Seq::<Value>::empty()))
                        =~= vs_old.push(v@));
                }
                let ghost vprev = items@;
                items.push(v);
                proof {
                    assert(crate::value::seq_view(items@) =~= crate::value::seq_view(vprev).push(
                        items@[items@.len() - 1]@,
                    ));
                    assert(forall|vs2: Seq<ValueView>|
                        crate::value::seq_view(vprev) + (seq![items@[items@.len() - 1]@] + vs2)
                            =~= crate::value::seq_view(items@) + vs2);
                }
                cur = end;
                i = i + 1;
            },
            Err(e) => {
                return Err(e);
            },
        }
    }
    proof {
        assert(dec_list(buf@.skip(cur as int), 0) == DecStep::Found(Seq::<ValueView>::empty(), 0));
        assert(crate::value::seq_view(items@) + Seq::<ValueView>::empty() =~= crate::value::seq_view(
            items@,
        ));
        crate::value::lemma_seq_view(items@);
    }
    Ok((Value::Array(items), cur))
}

/// Decodes `n` consecutive key-value pairs starting at `start`.
#[verifier::rlimit(100)]
fn decode_pairs_run(buf: &Vec<u8>, start: usize, n: usize) -> (r: Result<
    (Value, usize),
    DecodeError,
>)
    requires
        start <= buf.len(),
    ensures
        match dec_pairs(buf@.skip(start as int), n as nat) {
            DecStep::Found(ps, c) => r matches Ok(p) && p.0@ == ValueView::Mapping(ps) && p.1
                == start + c && start <= p.1 <= buf.len(),
            DecStep::Short => r == Err::<(Value, usize), DecodeError>(DecodeError::Truncated),
            DecStep::Bad => r == Err::<(Value, usize), DecodeError>(DecodeError::Malformed),
        },
    decreases buf.len() - start, 3int,
{
    let mut pairs: Vec<(Value, Value)> = Vec::new();
    let mut cur: usize = start;
    let mut i: usize = 0;
    proof {
        crate::value::lemma_pair_seq_view(pairs@);
        assert(crate::value::pair_seq_view(pairs@) =~= Seq::<(ValueView, ValueView)>::empty());
    }
    while i < n
        invariant
            start <= cur <= buf.len(),
            i <= n,
            crate::value::pair_seq_view(pairs@).len() == i,
            dec_pairs(buf@.skip(start as int), n as nat) == (match dec_pairs(
                buf@.skip(cur as int),
                (n - i) as nat,
            ) {
                DecStep::Found(ps, c) => DecStep::Found(
                    crate::value::pair_seq_view(pairs@) + ps,
                    (cur - start) + c,
                ),
                DecStep::Short => DecStep::Short,
                DecStep::Bad => DecStep::Bad,
            }),
        decreases n - i,
    {
        let ghost bcur = buf@.skip(cur as int);
        match decode_value(buf, cur) {
            Ok((k, end1)) => {
                proof {
                    assert(bcur.len() > 0);
                    let c = end1 - cur;
                    assert(clamp_consumed(c as int, bcur.len() as int) == c);
                    assert(bcur.skip(c as int) =~= buf@.skip(end1 as int));
                }
                match decode_value(buf, end1) {
                    Ok((v, end2)) => {
                        proof {
                            let r1 = buf@.skip(end1 as int);
                            assert(r1.len() > 0);
                            let c2 = end2 - end1;
                            assert(clamp_consumed(c2 as int, r1.len() as int) == c2);
                            assert(r1.skip(c2 as int) =~= buf@.skip(end2 as int));
                            assert(crate::value::pair_seq_view(pairs@.push((k, v)))
                                =~= crate::value::pair_seq_view(pairs@).push((k@, v@)));
                            assert(forall|ps2: Seq<(ValueView, ValueView)>|
                                crate::value::pair_seq_view(pairs@) + (seq![(k@, v@)] + ps2)
                                    =~= crate::value::pair_seq_view(pairs@.push((k, v))) + ps2);
                        }
                        pairs.push((k, v));
                        cur = end2;
                        i = i + 1;
                    },
                    Err(e) => {
                        return Err(e);
                    },
                }
            },
            Err(e) => {
                return Err(e);
            },
        }
    }
    proof {
        assert(dec_pairs(buf@.skip(cur as int), 0) == DecStep::Found(
            Seq::<(ValueView, ValueView)>::empty(),
            0,
        ));
        assert(crate::value::pair_seq_view(pairs@) + Seq::<(ValueView, ValueView)>::empty()
            =~= crate::value::pair_seq_view(pairs@));
        crate::value::lemma_pair_seq_view(pairs@);
    }
    Ok((Value::Mapping(pairs), cur))
}

} // verus!

verus! {

/// The value of a byte string fits its width.
pub proof fn lemma_be_val_bound(s: Seq<u8>)
    ensures
        be_val(s) < pow256(s.len()),
    decreases s.len(),
{
    if s.len() == 0 {
    } else {
        lemma_be_val_bound(s.drop_last());
        let q = be_val(s.drop_last());
        assert(q * 256 + 256 <= pow256((s.len() - 1) as nat) * 256) by (nonlinear_arith)
            requires
                q < pow256((s.len() - 1) as nat),
        ;
        assert(pow256(s.len()) == 256 * pow256((s.len() - 1) as nat));
    }
}

/// Whatever decoding finds is well formed, and the consumed count is
/// within the buffer.
pub proof fn lemma_dec_value_wf(b: Seq<u8>)
    ensures
        dec_value(b) matches DecStep::Found(v, c) ==> view_wf(v) && 1 <= c <= b.len(),
    decreases b.len(), 0int, 1int,
{
    lemma_pow256_table();
    if b.len() == 0 {
    } else {
        let m = b[0];
        if 0x80 <= m && m <= 0x8F {
            lemma_dec_pairs_wf(b.skip(1), (m - 0x80) as nat);
            if let DecStep::Found(ps, c) = dec_pairs(b.skip(1), (m - 0x80) as nat) {
                crate::value::lemma_pair_views_wf_from(ps, 0);
            }
        } else if 0x90 <= m && m <= 0x9F {
            lemma_dec_list_wf(b.skip(1), (m - 0x90) as nat);
            if let DecStep::Found(vs, c) = dec_list(b.skip(1), (m - 0x90) as nat) {
                crate::value::lemma_views_wf_from(vs, 0);
            }
        } else if 0xA0 <= m && m <= 0xBF {
            lemma_dec_str_wf(b, 1, m - 0xA0);
        } else if m == 0xD9 {
            if b.len() >= 2 {
                lemma_dec_str_wf(b, 2, b[1] as int);
            }
        } else if m == 0xDA || m == 0xDB {
            let w: int = if m == 0xDA {
                2
            } else {
                4
            };
            if b.len() >= 1 + w {
                lemma_be_val_bound(b.subrange(1, 1 + w));
                lemma_pow256_mono(b.subrange(1, 1 + w).len(), 4);
                lemma_dec_str_wf(b, 1 + w, be_val(b.subrange(1, 1 + w)) as int);
            }
        } else if m == 0xC5 || m == 0xC6 || m == 0xCD || m == 0xCE || m == 0xCF || m == 0xD1
            || m == 0xD2 || m == 0xD3 || m == 0xCB {
            let w: int = if m == 0xC5 || m == 0xCD || m == 0xD1 {
                2
            } else if m == 0xCF || m == 0xD3 || m == 0xCB {
                8
            } else {
                4
            };
            if b.len() >= 1 + w {
                lemma_be_val_bound(b.subrange(1, 1 + w));
                lemma_pow256_mono(b.subrange(1, 1 + w).len(), 8);
            }
        } else if m == 0xDC || m == 0xDD || m == 0xDE || m == 0xDF {
            let w: int = if m == 0xDC || m == 0xDE {
                2
            } else {
                4
            };
            if b.len() >= 1 + w {
                let x = be_val(b.subrange(1, 1 + w));
                lemma_be_val_bound(b.subrange(1, 1 + w));
                lemma_pow256_mono(b.subrange(1, 1 + w).len(), 4);
                if m == 0xDC || m == 0xDD {
                    lemma_dec_list_wf(b.skip(1 + w), x);
                    if let DecStep::Found(vs, c) = dec_list(b.skip(1 + w), x) {
                        crate::value::lemma_views_wf_from(vs, 0);
                    }
                } else {
                    lemma_dec_pairs_wf(b.skip(1 + w), x);
                    if let DecStep::Found(ps, c) = dec_pairs(b.skip(1 + w), x) {
                        crate::value::lemma_pair_views_wf_from(ps, 0);
                    }
                }
            }
        }
    }
}

/// A decoded string body is well formed.
proof fn lemma_dec_str_wf(b: Seq<u8>, off: int, n: int)
    requires
        0 <= off,
        0 <= n <= 0xFFFF_FFFF,
    ensures
        dec_str_body(b, off, n) matches DecStep::Found(v, c) ==> view_wf(v) && c == off + n,
{
    if b.len() >= off + n {
        let p = b.subrange(off, off + n);
        if vstd::utf8::valid_utf8(p) {
            vstd::utf8::decode_utf8_encode_utf8(p);
        }
    }
}

/// Whatever list decoding finds is well formed elementwise.
pub proof fn lemma_dec_list_wf(b: Seq<u8>, n: nat)
    ensures
        dec_list(b, n) matches DecStep::Found(vs, c) ==> vs.len() == n && 0 <= c <= b.len() && (
        forall|j: int| 0 <= j < vs.len() ==> view_wf(vs[j])),
    decreases b.len(), 1int, n,
{
    if n == 0 || b.len() == 0 {
    } else {
        lemma_dec_value_wf(b);
        if let DecStep::Found(v, c) = dec_value(b) {
            let cc = clamp_consumed(c, b.len() as int);
            lemma_dec_list_wf(b.skip(cc), (n - 1) as nat);
        }
    }
}

/// Whatever pair decoding finds is well formed pairwise.
pub proof fn lemma_dec_pairs_wf(b: Seq<u8>, n: nat)
    ensures
        dec_pairs(b, n) matches DecStep::Found(ps, c) ==> ps.len() == n && 0 <= c <= b.len() && (
        forall|j: int| 0 <= j < ps.len() ==> view_wf(ps[j].0) && view_wf(ps[j].1)),
    decreases b.len(), 2int, n,
{
    if n == 0 || b.len() == 0 {
    } else {
        lemma_dec_value_wf(b);
        if let DecStep::Found(k, c) = dec_value(b) {
            let cc = clamp_consumed(c, b.len() as int);
            let r1 = b.skip(cc);
            if r1.len() > 0 {
                lemma_dec_value_wf(r1);
                if let DecStep::Found(v, c2) = dec_value(r1) {
                    let cc2 = clamp_consumed(c2, r1.len() as int);
                    lemma_dec_pairs_wf(r1.skip(cc2), (n - 1) as nat);
                }
            }
        }
    }
}

} // verus!
