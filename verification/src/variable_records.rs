//! The records of a Variables payload, field by field.

use vstd::prelude::*;

use crate::bcd;
use crate::variables::{encode_all, encode_numbers, encode_record, pad_all, pad_slot, ValueView};

verus! {

/// What the record of `v` holds, field by field: the `00` separator; the record length
/// less one (four prefix bytes and the data); the highest array index (0 for a scalar); a
/// `00`; the type (`88` for numbers, else the width of a string slot); then the data,
/// one 8-byte BCD number or one NUL-padded slot per element, in order.
pub open spec fn record_fields(v: ValueView, r: Seq<u8>) -> bool {
    &&& r.len() >= 5
    &&& r[0] == 0x00
    &&& r.len() == r[1] + 2
    &&& r[3] == 0x00
    &&& match v {
        ValueView::Num(t) => {
            &&& r[2] == 0 && r[4] == 0x88 && r.len() == 13
            &&& bcd::encode_spec(t) == Ok::<Seq<u8>, bcd::BcdError>(r.skip(5))
        },
        ValueView::Str(s) => {
            &&& r[2] == 0 && r[4] == 16 && r.len() == 21
            &&& forall|j: int| 0 <= j < 16 ==> #[trigger] r[5 + j] == if j < s.len() { s[j] } else { 0u8 }
        },
        ValueView::NumArr(ts) => {
            &&& r[2] as int == ts.len() - 1 && r[4] == 0x88 && r.len() == 5 + 8 * ts.len()
            &&& forall|i: int| 0 <= i < ts.len() ==> bcd::encode_spec(#[trigger] ts[i]) == Ok::<Seq<u8>, bcd::BcdError>(
                r.subrange(5 + 8 * i, 13 + 8 * i),
            )
        },
        ValueView::StrArr(w, es) => {
            &&& r[2] as int == es.len() - 1 && r[4] as int == w && r.len() == 5 + w * es.len()
            &&& forall|i: int, j: int| 0 <= i < es.len() && 0 <= j < w ==> #[trigger] r[5 + w * i + j] == if j < es[i].len() {
                es[i][j]
            } else {
                0u8
            }
        },
    }
}

proof fn lemma_bcd_len(t: Seq<char>)
    ensures
        bcd::encode_spec(t) matches Ok(b) ==> b.len() == 8,
{
}

proof fn lemma_numbers_fields(ts: Seq<Seq<char>>)
    ensures
        encode_numbers(ts) matches Ok(b) ==> b.len() == 8 * ts.len() && forall|i: int| 0 <= i < ts.len()
            ==> bcd::encode_spec(#[trigger] ts[i]) == Ok::<Seq<u8>, bcd::BcdError>(b.subrange(8 * i, 8 * i + 8)),
    decreases ts.len(),
{
    if ts.len() > 0 {
        let pre = ts.drop_last();
        lemma_numbers_fields(pre);
        lemma_bcd_len(ts.last());
        if let Ok(b) = encode_numbers(ts) {
            let p = encode_numbers(pre)->Ok_0;
            let e = bcd::encode_spec(ts.last())->Ok_0;
            assert(b == p + e);
            assert forall|i: int| 0 <= i < ts.len() implies bcd::encode_spec(#[trigger] ts[i]) == Ok::<
                Seq<u8>,
                bcd::BcdError,
            >(b.subrange(8 * i, 8 * i + 8)) by {
                if i < pre.len() {
                    assert(ts[i] == pre[i]);
                    assert(b.subrange(8 * i, 8 * i + 8) =~= p.subrange(8 * i, 8 * i + 8));
                } else {
                    assert(b.subrange(8 * i, 8 * i + 8) =~= e);
                }
            }
        }
    }
}

proof fn lemma_pad_all_fields(es: Seq<Seq<u8>>, w: nat)
    ensures
        pad_all(es, w).len() == w * es.len(),
        forall|i: int, j: int| 0 <= i < es.len() && 0 <= j < w ==> #[trigger] pad_all(es, w)[w * i + j] == if j
            < es[i].len() {
            es[i][j]
        } else {
            0u8
        },
    decreases es.len(),
{
    if es.len() > 0 {
        let pre = es.drop_last();
        lemma_pad_all_fields(pre, w);
        let p = pad_all(pre, w);
        let n = pre.len();
        assert(w * es.len() == w * n + w) by (nonlinear_arith)
            requires es.len() == n + 1;
        assert forall|i: int, j: int| 0 <= i < es.len() && 0 <= j < w implies #[trigger] pad_all(es, w)[w * i + j]
            == if j < es[i].len() {
            es[i][j]
        } else {
            0u8
        } by {
            if i < n {
                assert(w * i + j < w * n) by (nonlinear_arith)
                    requires 0 <= i < n, 0 <= j < w;
                assert(es[i] == pre[i]);
            } else {
                assert(w * i == w * n);
            }
        }
    }
}

/// Every record `encode_payload` writes has the fields of [`record_fields`].
pub proof fn lemma_record_layout(v: ValueView)
    ensures
        encode_record(v) matches Ok(r) ==> record_fields(v, r),
{
    if let Ok(r) = encode_record(v) {
        match v {
            ValueView::Num(t) => {
                lemma_bcd_len(t);
                assert(r.skip(5) =~= bcd::encode_spec(t)->Ok_0);
            },
            ValueView::Str(s) => {
                assert forall|j: int| 0 <= j < 16 implies #[trigger] r[5 + j] == if j < s.len() { s[j] } else { 0u8 } by {
                    assert(r[5 + j] == pad_slot(s, 16)[j]);
                }
            },
            ValueView::NumArr(ts) => {
                lemma_numbers_fields(ts);
                let b = encode_numbers(ts)->Ok_0;
                assert forall|i: int| 0 <= i < ts.len() implies bcd::encode_spec(#[trigger] ts[i]) == Ok::<
                    Seq<u8>,
                    bcd::BcdError,
                >(r.subrange(5 + 8 * i, 13 + 8 * i)) by {
                    assert(r.subrange(5 + 8 * i, 13 + 8 * i) =~= b.subrange(8 * i, 8 * i + 8));
                }
            },
            ValueView::StrArr(w, es) => {
                lemma_pad_all_fields(es, w);
                let b = pad_all(es, w);
                assert forall|i: int, j: int| 0 <= i < es.len() && 0 <= j < w implies #[trigger] r[5 + w * i + j]
                    == if j < es[i].len() {
                    es[i][j]
                } else {
                    0u8
                } by {
                    assert(w * i + j < w * es.len()) by (nonlinear_arith)
                        requires 0 <= i < es.len(), 0 <= j < w;
                    assert(r[5 + w * i + j] == b[w * i + j]);
                }
            },
        }
    }
}

/// The payload of values `xs` then `ys` is the payload of `xs` followed by the payload of
/// `ys`: records are written in the order of the values.
pub proof fn lemma_encode_all_concat(xs: Seq<ValueView>, ys: Seq<ValueView>)
    ensures
        encode_all(xs) matches Ok(a) ==> (encode_all(ys) matches Ok(b) ==> encode_all(xs + ys) == Ok::<
            Seq<u8>,
            crate::variables::EncodeFault,
        >(a + b)),
    decreases ys.len(),
{
    if ys.len() == 0 {
        assert(xs + ys =~= xs);
        if let Ok(a) = encode_all(xs) {
            assert(a + Seq::<u8>::empty() =~= a);
        }
    } else {
        let pre = ys.drop_last();
        lemma_encode_all_concat(xs, pre);
        assert((xs + ys).drop_last() =~= xs + pre);
        assert((xs + ys).last() == ys.last());
        if let Ok(a) = encode_all(xs) {
            if let Ok(b) = encode_all(ys) {
                let bp = encode_all(pre)->Ok_0;
                let r = encode_record(ys.last())->Ok_0;
                assert(b == bp + r);
                assert(a + bp + r =~= a + b);
            }
        }
    }
}

} // verus!
