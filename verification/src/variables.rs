//! Variables codec: PC-1500/1500A CE-158 payload type `'H'`.
//!
//! The binary payload (the bytes after the CE-158 header, whose length field is not
//! meaningful for this type) is a sequence of records with no fixed total length and no
//! terminator; parsing stops when the buffer is exhausted. Each record:
//! ```text
//!   0x00 separator
//!   4-byte prefix: [record_len - 1, dim_max, 0x00, type]
//!   data bytes (record_len - 4 of them)
//! ```
//! `type == 0x88` marks numeric data (8-byte BCD elements, see [`crate::bcd`]); otherwise
//! `type` is the string element length in bytes. `dim_max == 0` marks a scalar;
//! `dim_max > 0` an array of `dim_max + 1` elements.
//!
//! ASCII form ("SDAV"):
//! ```text
//! ; sde-variables:1.0 pc1500
//! ; Count: <N>
//! ; Filename: MYAPP
//! <value-line>
//! ...
//! ```
//! `N` is the number of top-level records. A numeric scalar is a plain decimal line; a
//! string scalar a double-quoted, escaped line; a numeric array a `DIM (<dimMax>)` header
//! followed by `dimMax + 1` decimal lines; a string array a `DIM $(<dimMax>)*<maxLen>`
//! header followed by `dimMax + 1` quoted lines.

use vstd::prelude::*;
use vstd::string::StringSliceAdditionalSpecFns;

use crate::bcd::{self, decode_spec, encode_spec, trim_ws, BcdError};
use crate::textbuf;

verus! {

pub const NUMERIC_TYPE: u8 = 0x88;
pub const NUMERIC_ELEM_LEN: usize = 8;
pub const DEFAULT_STRING_SCALAR_LEN: usize = 16;

#[derive(Clone, Debug, PartialEq, Eq)]
pub enum VarValue {
    NumericScalar(String),
    StringScalar(Vec<u8>),
    NumericArray(Vec<String>),
    StringArray { max_len: usize, elements: Vec<Vec<u8>> },
}

#[derive(Clone, Debug, PartialEq, Eq, Default)]
pub struct VarFile {
    pub filename: Option<String>,
    pub values: Vec<VarValue>,
}

/// The content of a [`VarValue`].
pub enum ValueView {
    Num(Seq<char>),
    Str(Seq<u8>),
    NumArr(Seq<Seq<char>>),
    StrArr(nat, Seq<Seq<u8>>),
}

pub open spec fn texts(v: Seq<String>) -> Seq<Seq<char>> {
    v.map_values(|s: String| s@)
}

pub open spec fn byte_strings(v: Seq<Vec<u8>>) -> Seq<Seq<u8>> {
    v.map_values(|b: Vec<u8>| b@)
}

impl View for VarValue {
    type V = ValueView;

    open spec fn view(&self) -> ValueView {
        match self {
            VarValue::NumericScalar(t) => ValueView::Num(t@),
            VarValue::StringScalar(b) => ValueView::Str(b@),
            VarValue::NumericArray(es) => ValueView::NumArr(texts(es@)),
            VarValue::StringArray { max_len, elements } => ValueView::StrArr(
                *max_len as nat,
                byte_strings(elements@),
            ),
        }
    }
}

pub open spec fn value_views(vs: Seq<VarValue>) -> Seq<ValueView> {
    vs.map_values(|v: VarValue| v@)
}

/// Why a Variables payload or text does not convert.
#[derive(Clone, Debug, PartialEq, Eq)]
pub enum VarError {
    /// A record does not start with `00`.
    BadSeparator { pos: usize },
    /// Fewer than 5 bytes are left for a record's separator and prefix.
    TruncatedPrefix { pos: usize },
    /// A record declares fewer than 4 bytes.
    ImpossibleLength { pos: usize, len: usize },
    /// A record declares more bytes than are left.
    RunsPast { pos: usize, len: usize, remain: usize },
    /// A record's data length does not fit its shape.
    BadShape { pos: usize, len: usize, expected: usize },
    /// An array has no element.
    EmptyArray,
    /// An array has more than 256 elements.
    TooManyElements { len: usize },
    /// A record would be longer than its 8-bit length byte can say.
    RecordTooLong { data_len: usize },
    /// A string array's element length exceeds 255.
    ElementTooLong { max_len: usize },
    /// A numeric text does not encode.
    Number(BcdError),
    /// The text form is malformed.
    Syntax(String),
}

impl VarError {
    /// The error as a line of text.
    pub open spec fn message_text(self) -> Seq<char> {
        match self {
            VarError::BadSeparator { pos } => "Variables payload: expected record separator at offset "@ + crate::textbuf::decimal(
                pos as nat,
            ),
            VarError::TruncatedPrefix { pos } => "Variables payload: truncated record prefix at offset "@ + crate::textbuf::decimal(
                pos as nat,
            ),
            VarError::ImpossibleLength { pos, len } => "Variables payload: record at offset "@ + crate::textbuf::decimal(pos as nat)
                + " declares an impossible length "@ + crate::textbuf::decimal(len as nat),
            VarError::RunsPast { pos, len, remain } => "Variables payload: record at offset "@ + crate::textbuf::decimal(pos as nat)
                + " declares "@ + crate::textbuf::decimal(len as nat) + " bytes but only "@ + crate::textbuf::decimal(remain as nat) + " remain"@,
            VarError::BadShape { pos, len, expected } => "Variables payload: record at offset "@ + crate::textbuf::decimal(pos as nat)
                + " has data length "@ + crate::textbuf::decimal(len as nat) + ", expected "@ + crate::textbuf::decimal(expected as nat),
            VarError::EmptyArray => "Variables array must have at least one element"@,
            VarError::TooManyElements { len } => "array too large to encode: "@ + crate::textbuf::decimal(len as nat)
                + " elements exceeds the format's 256-element limit"@,
            VarError::RecordTooLong { data_len } => "array too large to encode: "@ + crate::textbuf::decimal(data_len as nat)
                + " data bytes exceeds the format's 8-bit record-length limit"@,
            VarError::ElementTooLong { max_len } => "Variables string array element length "@ + crate::textbuf::decimal(max_len as nat)
                + " exceeds 255"@,
            VarError::Number(_) => "Variables: a numeric value is not a valid number"@,
            VarError::Syntax(m) => "Variables ASCII: "@ + m@,
        }
    }

    pub fn message(&self) -> (s: String)
        ensures
            s@ == self.message_text(),
    {
        let mut s = String::new();
        match self {
            VarError::BadSeparator { pos } => {
                textbuf::push_str(&mut s, "Variables payload: expected record separator at offset ");
                textbuf::push_decimal(&mut s, *pos as u64);
            },
            VarError::TruncatedPrefix { pos } => {
                textbuf::push_str(&mut s, "Variables payload: truncated record prefix at offset ");
                textbuf::push_decimal(&mut s, *pos as u64);
            },
            VarError::ImpossibleLength { pos, len } => {
                textbuf::push_str(&mut s, "Variables payload: record at offset ");
                textbuf::push_decimal(&mut s, *pos as u64);
                textbuf::push_str(&mut s, " declares an impossible length ");
                textbuf::push_decimal(&mut s, *len as u64);
            },
            VarError::RunsPast { pos, len, remain } => {
                textbuf::push_str(&mut s, "Variables payload: record at offset ");
                textbuf::push_decimal(&mut s, *pos as u64);
                textbuf::push_str(&mut s, " declares ");
                textbuf::push_decimal(&mut s, *len as u64);
                textbuf::push_str(&mut s, " bytes but only ");
                textbuf::push_decimal(&mut s, *remain as u64);
                textbuf::push_str(&mut s, " remain");
            },
            VarError::BadShape { pos, len, expected } => {
                textbuf::push_str(&mut s, "Variables payload: record at offset ");
                textbuf::push_decimal(&mut s, *pos as u64);
                textbuf::push_str(&mut s, " has data length ");
                textbuf::push_decimal(&mut s, *len as u64);
                textbuf::push_str(&mut s, ", expected ");
                textbuf::push_decimal(&mut s, *expected as u64);
            },
            VarError::EmptyArray => {
                textbuf::push_str(&mut s, "Variables array must have at least one element");
            },
            VarError::TooManyElements { len } => {
                textbuf::push_str(&mut s, "array too large to encode: ");
                textbuf::push_decimal(&mut s, *len as u64);
                textbuf::push_str(&mut s, " elements exceeds the format's 256-element limit");
            },
            VarError::RecordTooLong { data_len } => {
                textbuf::push_str(&mut s, "array too large to encode: ");
                textbuf::push_decimal(&mut s, *data_len as u64);
                textbuf::push_str(
                    &mut s,
                    " data bytes exceeds the format's 8-bit record-length limit",
                );
            },
            VarError::ElementTooLong { max_len } => {
                textbuf::push_str(&mut s, "Variables string array element length ");
                textbuf::push_decimal(&mut s, *max_len as u64);
                textbuf::push_str(&mut s, " exceeds 255");
            },
            VarError::Number(_) => {
                textbuf::push_str(&mut s, "Variables: a numeric value is not a valid number");
            },
            VarError::Syntax(m) => {
                textbuf::push_str(&mut s, "Variables ASCII: ");
                textbuf::push_str(&mut s, m.as_str());
            },
        }
        s
    }
}

// ── decoding ─────────────────────────────────────────────────────────────

/// Why the bytes of a payload do not decode (offsets into the payload).
pub enum DecodeFault {
    Separator(int),
    Truncated(int),
    Impossible(int, int),
    RunsPast(int, int, int),
    Shape(int, int, int),
    /// A string array whose elements are zero bytes wide: the element split is undefined.
    ZeroWidth,
}

/// `d` without its trailing NUL bytes.
pub open spec fn trim_nulls(d: Seq<u8>) -> Seq<u8>
    decreases d.len(),
{
    if d.len() > 0 && d.last() == 0 {
        trim_nulls(d.drop_last())
    } else {
        d
    }
}

/// The `n` numbers of a numeric array's data.
pub open spec fn numbers(data: Seq<u8>, n: nat) -> Seq<Seq<char>> {
    Seq::new(n, |i: int| decode_spec(data.subrange(8 * i, 8 * i + 8))->Some_0)
}

/// The `n` strings, each `w` bytes wide, of a string array's data.
pub open spec fn strings(data: Seq<u8>, n: nat, w: nat) -> Seq<Seq<u8>> {
    Seq::new(n, |i: int| trim_nulls(data.subrange(w * i, w * i + w)))
}

/// The value of a record with the given dimension and type bytes and data, at `pos`.
pub open spec fn record_value(pos: int, dm: u8, ty: u8, data: Seq<u8>) -> Result<ValueView, DecodeFault> {
    let n = data.len() as int;
    if dm == 0 {
        if ty == NUMERIC_TYPE {
            if n != 8 {
                Err(DecodeFault::Shape(pos, n, 8))
            } else {
                Ok(ValueView::Num(decode_spec(data)->Some_0))
            }
        } else if n != ty {
            Err(DecodeFault::Shape(pos, n, ty as int))
        } else {
            Ok(ValueView::Str(trim_nulls(data)))
        }
    } else {
        let count = dm + 1;
        if ty == NUMERIC_TYPE {
            if n != count * 8 {
                Err(DecodeFault::Shape(pos, n, count * 8))
            } else {
                Ok(ValueView::NumArr(numbers(data, count as nat)))
            }
        } else if n != count * ty {
            Err(DecodeFault::Shape(pos, n, count * ty))
        } else if ty == 0 {
            Err(DecodeFault::ZeroWidth)
        } else {
            Ok(ValueView::StrArr(ty as nat, strings(data, count as nat, ty as nat)))
        }
    }
}

/// Decoding the records of `p` from offset `pos`.
pub open spec fn decode_from(p: Seq<u8>, pos: int) -> Result<Seq<ValueView>, DecodeFault>
    decreases p.len() - pos,
{
    if pos < 0 || pos >= p.len() {
        Ok(Seq::empty())
    } else if p[pos] != 0 {
        Err(DecodeFault::Separator(pos))
    } else if pos + 5 > p.len() {
        Err(DecodeFault::Truncated(pos))
    } else {
        let rl = p[pos + 1] + 1;
        let dm = p[pos + 2];
        let ty = p[pos + 4];
        if rl < 4 {
            Err(DecodeFault::Impossible(pos, rl))
        } else {
            let dl = rl - 4;
            let ds = pos + 5;
            if ds + dl > p.len() {
                Err(DecodeFault::RunsPast(pos, rl, p.len() - ds))
            } else {
                match record_value(pos, dm, ty, p.subrange(ds, ds + dl)) {
                    Err(f) => Err(f),
                    Ok(v) => match decode_from(p, ds + dl) {
                        Err(f) => Err(f),
                        Ok(rest) => Ok(seq![v] + rest),
                    },
                }
            }
        }
    }
}

pub open spec fn decode_payload_spec(p: Seq<u8>) -> Result<Seq<ValueView>, DecodeFault> {
    decode_from(p, 0)
}

/// `e` is the error that reports `f`.
pub open spec fn reports_decode(e: VarError, f: DecodeFault) -> bool {
    match f {
        DecodeFault::Separator(pos) => e == VarError::BadSeparator { pos: pos as usize },
        DecodeFault::Truncated(pos) => e == VarError::TruncatedPrefix { pos: pos as usize },
        DecodeFault::Impossible(pos, len) => e == VarError::ImpossibleLength {
            pos: pos as usize,
            len: len as usize,
        },
        DecodeFault::RunsPast(pos, len, remain) => e == VarError::RunsPast {
            pos: pos as usize,
            len: len as usize,
            remain: remain as usize,
        },
        DecodeFault::Shape(pos, len, expected) => e == VarError::BadShape {
            pos: pos as usize,
            len: len as usize,
            expected: expected as usize,
        },
        DecodeFault::ZeroWidth => false,
    }
}

/// Decode a Variables payload (the bytes after the CE-158 header, to the end of the
/// buffer). A string array of zero-width elements cannot be split, so such a payload is
/// not accepted.
pub fn decode_payload(payload: &[u8]) -> (r: Result<VarFile, VarError>)
    requires
        decode_payload_spec(payload@) != Err::<Seq<ValueView>, DecodeFault>(DecodeFault::ZeroWidth),
    ensures
        match r {
            Ok(f) => decode_payload_spec(payload@) == Ok::<Seq<ValueView>, DecodeFault>(
                value_views(f.values@),
            ) && f.filename is None,
            Err(e) => decode_payload_spec(payload@) matches Err(f) && reports_decode(e, f),
        },
{
    let mut values: Vec<VarValue> = Vec::new();
    let mut pos: usize = 0;
    let n = payload.len();
    while pos < n
        invariant
            pos <= n == payload@.len(),
            decode_payload_spec(payload@) != Err::<Seq<ValueView>, DecodeFault>(DecodeFault::ZeroWidth),
            decode_payload_spec(payload@) == match decode_from(payload@, pos as int) {
                Ok(rest) => Ok(value_views(values@) + rest),
                Err(f) => Err::<Seq<ValueView>, DecodeFault>(f),
            },
        decreases n - pos,
    {
        if payload[pos] != 0x00 {
            return Err(VarError::BadSeparator { pos });
        }
        if n - pos < 5 {
            return Err(VarError::TruncatedPrefix { pos });
        }
        let record_len = payload[pos + 1] as usize + 1;
        let dim_max = payload[pos + 2];
        let type_byte = payload[pos + 4];
        if record_len < 4 {
            return Err(VarError::ImpossibleLength { pos, len: record_len });
        }
        let data_len = record_len - 4;
        let data_start = pos + 5;
        if data_len > n - data_start {
            return Err(VarError::RunsPast { pos, len: record_len, remain: n - data_start });
        }
        let data = vstd::slice::slice_subrange(payload, data_start, data_start + data_len);
        let value = match decode_record(pos, dim_max, type_byte, data) {
            Ok(v) => v,
            Err(e) => {
                return Err(e);
            },
        };
        let ghost before = value_views(values@);
        values.push(value);
        proof {
            assert(value_views(values@) =~= before.push(values@.last()@));
            match decode_from(payload@, (data_start + data_len) as int) {
                Ok(rest) => {
                    assert(value_views(values@) + rest =~= before + (seq![values@.last()@] + rest));
                },
                Err(_) => {},
            }
        }
        pos = data_start + data_len;
    }
    assert(value_views(values@) + Seq::<ValueView>::empty() =~= value_views(values@));
    Ok(VarFile { filename: None, values })
}

/// Whether `payload` holds, before any other fault, a string array of zero-width
/// elements: the one payload [`decode_payload`] does not take.
pub fn has_zero_width_array(payload: &[u8]) -> (r: bool)
    ensures
        r == (decode_payload_spec(payload@) == Err::<Seq<ValueView>, DecodeFault>(DecodeFault::ZeroWidth)),
{
    let mut pos: usize = 0;
    let n = payload.len();
    while pos < n
        invariant
            pos <= n == payload@.len(),
            (decode_payload_spec(payload@) == Err::<Seq<ValueView>, DecodeFault>(DecodeFault::ZeroWidth)) == (
            decode_from(payload@, pos as int) == Err::<Seq<ValueView>, DecodeFault>(DecodeFault::ZeroWidth)),
        decreases n - pos,
    {
        if payload[pos] != 0x00 || n - pos < 5 {
            return false;
        }
        let record_len = payload[pos + 1] as u64 + 1;
        let dim_max = payload[pos + 2] as u64;
        let type_byte = payload[pos + 4] as u64;
        if record_len < 4 {
            return false;
        }
        let data_len = record_len - 4;
        let data_start = pos + 5;
        if data_len > (n - data_start) as u64 {
            return false;
        }
        let ghost data = payload@.subrange(data_start as int, data_start + data_len);
        let count = dim_max + 1;
        assert(count * type_byte <= 256 * 255) by (nonlinear_arith)
            requires
                count <= 256,
                type_byte <= 255,
        ;
        let shape_ok = if dim_max == 0 {
            if type_byte == NUMERIC_TYPE as u64 {
                data_len == 8
            } else {
                data_len == type_byte
            }
        } else if type_byte == NUMERIC_TYPE as u64 {
            data_len == count * 8
        } else {
            data_len == count * type_byte
        };
        proof {
            assert(data.len() == data_len);
        }
        if !shape_ok {
            return false;
        }
        if dim_max != 0 && type_byte != NUMERIC_TYPE as u64 && type_byte == 0 {
            return true;
        }
        pos = data_start + data_len as usize;
    }
    false
}

/// The value of one record.
fn decode_record(pos: usize, dim_max: u8, type_byte: u8, data: &[u8]) -> (r: Result<VarValue, VarError>)
    requires
        record_value(pos as int, dim_max, type_byte, data@) != Err::<ValueView, DecodeFault>(
            DecodeFault::ZeroWidth,
        ),
    ensures
        match r {
            Ok(v) => record_value(pos as int, dim_max, type_byte, data@) == Ok::<ValueView, DecodeFault>(v@),
            Err(e) => record_value(pos as int, dim_max, type_byte, data@) matches Err(f) && reports_decode(e, f),
        },
{
    let data_len = data.len();
    let is_numeric = type_byte == NUMERIC_TYPE;
    if dim_max == 0 {
        if is_numeric {
            if data_len != NUMERIC_ELEM_LEN {
                return Err(VarError::BadShape { pos, len: data_len, expected: NUMERIC_ELEM_LEN });
            }
            assert(decode_spec(data@) is Some);
            match bcd::decode(data) {
                Ok(t) => Ok(VarValue::NumericScalar(t)),
                Err(e) => Err(VarError::Number(e)),
            }
        } else {
            if data_len != type_byte as usize {
                return Err(VarError::BadShape { pos, len: data_len, expected: type_byte as usize });
            }
            let b = trim_trailing_nulls(data, 0, data_len);
            assert(data@.subrange(0, data_len as int) =~= data@);
            Ok(VarValue::StringScalar(b))
        }
    } else {
        let count = dim_max as usize + 1;
        if is_numeric {
            if data_len != count * NUMERIC_ELEM_LEN {
                return Err(
                    VarError::BadShape { pos, len: data_len, expected: count * NUMERIC_ELEM_LEN },
                );
            }
            let mut elements: Vec<String> = Vec::new();
            let mut i: usize = 0;
            while i < count
                invariant
                    i <= count,
                    count == dim_max + 1,
                    data@.len() == count * 8,
                    texts(elements@) == numbers(data@, count as nat).take(i as int),
                decreases count - i,
            {
                let chunk = vstd::slice::slice_subrange(data, 8 * i, 8 * i + 8);
                let t = match bcd::decode(chunk) {
                    Ok(t) => t,
                    Err(e) => {
                        return Err(VarError::Number(e));
                    },
                };
                let ghost before = texts(elements@);
                elements.push(t);
                assert(texts(elements@) =~= before.push(t@));
                assert(chunk@ == data@.subrange(8 * i, 8 * i + 8));
                assert(t@ == numbers(data@, count as nat)[i as int]);
                assert(texts(elements@) =~= numbers(data@, count as nat).take(i + 1));
                i = i + 1;
            }
            assert(numbers(data@, count as nat).take(count as int) =~= numbers(data@, count as nat));
            let r = VarValue::NumericArray(elements);
            assert(r@ == ValueView::NumArr(numbers(data@, count as nat)));
            assert(record_value(pos as int, dim_max, type_byte, data@) == Ok::<ValueView, DecodeFault>(r@));
            Ok(r)
        } else {
            let max_len = type_byte as usize;
            assert(count * max_len <= 65280) by (nonlinear_arith)
                requires
                    count <= 256,
                    max_len <= 255,
            ;
            if data_len != count * max_len {
                return Err(VarError::BadShape { pos, len: data_len, expected: count * max_len });
            }
            let mut elements: Vec<Vec<u8>> = Vec::new();
            let mut i: usize = 0;
            while i < count
                invariant
                    i <= count,
                    count == dim_max + 1,
                    max_len == type_byte,
                    data@.len() == count * max_len,
                    byte_strings(elements@) == strings(data@, count as nat, max_len as nat).take(i as int),
                decreases count - i,
            {
                assert(max_len * i + max_len <= count * max_len) by (nonlinear_arith)
                    requires
                        i < count,
                ;
                assert(count * max_len <= 65280) by (nonlinear_arith)
                    requires
                        count <= 256,
                        max_len <= 255,
                ;
                let from = max_len * i;
                let e = trim_trailing_nulls(data, from, from + max_len);
                let ghost before = byte_strings(elements@);
                elements.push(e);
                assert(byte_strings(elements@) =~= before.push(e@));
                assert(e@ == strings(data@, count as nat, max_len as nat)[i as int]);
                assert(byte_strings(elements@) =~= strings(data@, count as nat, max_len as nat).take(
                    i + 1,
                ));
                i = i + 1;
            }
            assert(strings(data@, count as nat, max_len as nat).take(count as int) =~= strings(
                data@,
                count as nat,
                max_len as nat,
            ));
            let r = VarValue::StringArray { max_len, elements };
            assert(r@ == ValueView::StrArr(max_len as nat, strings(data@, count as nat, max_len as nat)));
            assert(max_len != 0);
            assert(record_value(pos as int, dim_max, type_byte, data@) == Ok::<ValueView, DecodeFault>(r@));
            Ok(r)
        }
    }
}

/// `data[from..to]` without its trailing NULs.
fn trim_trailing_nulls(data: &[u8], from: usize, to: usize) -> (r: Vec<u8>)
    requires
        from <= to <= data@.len(),
    ensures
        r@ == trim_nulls(data@.subrange(from as int, to as int)),
{
    let mut len = to;
    while len > from && data[len - 1] == 0x00
        invariant
            from <= len <= to <= data@.len(),
            trim_nulls(data@.subrange(from as int, to as int)) == trim_nulls(
                data@.subrange(from as int, len as int),
            ),
        decreases len - from,
    {
        assert(data@.subrange(from as int, len as int).drop_last() =~= data@.subrange(
            from as int,
            len - 1,
        ));
        len = len - 1;
    }
    let mut out: Vec<u8> = Vec::new();
    let mut k = from;
    while k < len
        invariant
            from <= k <= len <= data@.len(),
            out@ == data@.subrange(from as int, k as int),
        decreases len - k,
    {
        out.push(data[k]);
        k = k + 1;
        assert(out@ =~= data@.subrange(from as int, k as int));
    }
    out
}


// ── encoding ─────────────────────────────────────────────────────────────

/// Why values do not encode.
pub enum EncodeFault {
    Number(BcdError),
    Empty,
    TooMany(nat),
    TooLong(nat),
    Wide(nat),
}

/// `c` cut or zero-padded to `len` bytes.
pub open spec fn pad_slot(c: Seq<u8>, len: nat) -> Seq<u8> {
    Seq::new(len, |i: int| if i < c.len() { c[i] } else { 0u8 })
}

/// The 8-byte encodings of `ts`, concatenated; the first failure.
pub open spec fn encode_numbers(ts: Seq<Seq<char>>) -> Result<Seq<u8>, BcdError>
    decreases ts.len(),
{
    if ts.len() == 0 {
        Ok(Seq::empty())
    } else {
        match encode_numbers(ts.drop_last()) {
            Err(e) => Err(e),
            Ok(p) => match encode_spec(ts.last()) {
                Ok(b) => Ok(p + b),
                Err(e) => Err(e),
            },
        }
    }
}

/// `es`, each cut or padded to `w` bytes, concatenated.
pub open spec fn pad_all(es: Seq<Seq<u8>>, w: nat) -> Seq<u8>
    decreases es.len(),
{
    if es.len() == 0 {
        Seq::empty()
    } else {
        pad_all(es.drop_last(), w) + pad_slot(es.last(), w)
    }
}

/// One value's record, separator included. A string scalar always gets a 16-byte slot.
pub open spec fn encode_record(v: ValueView) -> Result<Seq<u8>, EncodeFault> {
    match v {
        ValueView::Num(t) => match encode_spec(t) {
            Ok(b) => Ok(seq![0u8, 0x0B, 0x00, 0x00, NUMERIC_TYPE] + b),
            Err(e) => Err(EncodeFault::Number(e)),
        },
        ValueView::Str(s) => Ok(seq![0u8, 0x13, 0x00, 0x00, 16] + pad_slot(s, 16)),
        ValueView::NumArr(ts) => {
            let n = ts.len();
            if n == 0 {
                Err(EncodeFault::Empty)
            } else if n > 256 {
                Err(EncodeFault::TooMany(n))
            } else if n * 8 + 3 > 255 {
                Err(EncodeFault::TooLong(n * 8))
            } else {
                match encode_numbers(ts) {
                    Ok(b) => Ok(seq![0u8, (n * 8 + 3) as u8, (n - 1) as u8, 0x00, NUMERIC_TYPE] + b),
                    Err(e) => Err(EncodeFault::Number(e)),
                }
            }
        },
        ValueView::StrArr(w, es) => {
            let n = es.len();
            if n == 0 {
                Err(EncodeFault::Empty)
            } else if n > 256 {
                Err(EncodeFault::TooMany(n))
            } else if w > 255 {
                Err(EncodeFault::Wide(w))
            } else if n * w + 3 > 255 {
                Err(EncodeFault::TooLong(n * w))
            } else {
                Ok(seq![0u8, (n * w + 3) as u8, (n - 1) as u8, 0x00, w as u8] + pad_all(es, w))
            }
        },
    }
}

/// All records, in order; the first value that does not encode.
pub open spec fn encode_all(vs: Seq<ValueView>) -> Result<Seq<u8>, EncodeFault>
    decreases vs.len(),
{
    if vs.len() == 0 {
        Ok(Seq::empty())
    } else {
        match encode_all(vs.drop_last()) {
            Err(e) => Err(e),
            Ok(p) => match encode_record(vs.last()) {
                Ok(r) => Ok(p + r),
                Err(e) => Err(e),
            },
        }
    }
}

/// `e` is the error that reports `f`.
pub open spec fn reports_encode(e: VarError, f: EncodeFault) -> bool {
    match f {
        EncodeFault::Number(b) => e == VarError::Number(b),
        EncodeFault::Empty => e == VarError::EmptyArray,
        EncodeFault::TooMany(n) => e == VarError::TooManyElements { len: n as usize },
        EncodeFault::TooLong(n) => e == VarError::RecordTooLong { data_len: n as usize },
        EncodeFault::Wide(n) => e == VarError::ElementTooLong { max_len: n as usize },
    }
}

/// Encode values to the binary payload: their records, each preceded by its `00`
/// separator.
pub fn encode_payload(values: &[VarValue]) -> (r: Result<Vec<u8>, VarError>)
    ensures
        match r {
            Ok(p) => encode_all(value_views(values@)) == Ok::<Seq<u8>, EncodeFault>(p@),
            Err(e) => encode_all(value_views(values@)) matches Err(f) && reports_encode(e, f),
        },
{
    let ghost vs = value_views(values@);
    let mut out: Vec<u8> = Vec::new();
    let mut i: usize = 0;
    while i < values.len()
        invariant
            i <= values@.len(),
            vs == value_views(values@),
            encode_all(vs.take(i as int)) == Ok::<Seq<u8>, EncodeFault>(out@),
        decreases values.len() - i,
    {
        assert(vs.take(i + 1).drop_last() =~= vs.take(i as int));
        assert(vs.take(i + 1).last() == values@[i as int]@);
        match encode_value(&values[i], &mut out) {
            Ok(()) => {},
            Err(e) => {
                proof {
                    lemma_encode_all_prefix_err(vs, (i + 1) as int);
                }
                return Err(e);
            },
        }
        i = i + 1;
    }
    assert(vs.take(values@.len() as int) =~= vs);
    Ok(out)
}

/// An error for the first `n` values is the error for all of them.
proof fn lemma_encode_all_prefix_err(vs: Seq<ValueView>, n: int)
    requires
        0 <= n <= vs.len(),
        encode_all(vs.take(n)) is Err,
    ensures
        encode_all(vs) == encode_all(vs.take(n)),
    decreases vs.len() - n,
{
    if n < vs.len() {
        assert(vs.take(n + 1).drop_last() =~= vs.take(n));
        lemma_encode_all_prefix_err(vs, n + 1);
    } else {
        assert(vs.take(n) =~= vs);
    }
}

/// Append `v`'s record to `out`.
fn encode_value(v: &VarValue, out: &mut Vec<u8>) -> (r: Result<(), VarError>)
    ensures
        match r {
            Ok(()) => encode_record(v@) matches Ok(b) && final(out)@ == old(out)@ + b,
            Err(e) => encode_record(v@) matches Err(f) && reports_encode(e, f),
        },
{
    let ghost before = out@;
    match v {
        VarValue::NumericScalar(text) => {
            let b = match bcd::encode(text.as_str()) {
                Ok(b) => b,
                Err(e) => {
                    return Err(VarError::Number(e));
                },
            };
            out.push(0x00);
            out.push(0x0B);
            out.push(0x00);
            out.push(0x00);
            out.push(NUMERIC_TYPE);
            push_bytes(out, b.as_slice());
            assert(out@ =~= before + (seq![0u8, 0x0B, 0x00, 0x00, NUMERIC_TYPE] + b@));
            Ok(())
        },
        VarValue::StringScalar(bytes) => {
            out.push(0x00);
            out.push(0x13);
            out.push(0x00);
            out.push(0x00);
            out.push(16);
            push_slot(out, bytes, DEFAULT_STRING_SCALAR_LEN);
            assert(out@ =~= before + (seq![0u8, 0x13, 0x00, 0x00, 16] + pad_slot(bytes@, 16)));
            Ok(())
        },
        VarValue::NumericArray(elements) => {
            let n = elements.len();
            if n == 0 {
                return Err(VarError::EmptyArray);
            }
            if n > 256 {
                return Err(VarError::TooManyElements { len: n });
            }
            let data_len = n * NUMERIC_ELEM_LEN;
            if data_len + 3 > 255 {
                return Err(VarError::RecordTooLong { data_len });
            }
            out.push(0x00);
            out.push((data_len + 3) as u8);
            out.push((n - 1) as u8);
            out.push(0x00);
            out.push(NUMERIC_TYPE);
            let ghost head = out@;
            let ghost ts = texts(elements@);
            let mut k: usize = 0;
            while k < n
                invariant
                    k <= n == elements@.len(),
                    ts == texts(elements@),
                    v@ == ValueView::NumArr(ts),
                    0 < n <= 256,
                    n * 8 + 3 <= 255,
                    encode_numbers(ts.take(k as int)) matches Ok(p) && out@ == head + p,
                decreases n - k,
            {
                assert(ts.take(k + 1).drop_last() =~= ts.take(k as int));
                assert(ts.take(k + 1).last() == elements@[k as int]@);
                let b = match bcd::encode(elements[k].as_str()) {
                    Ok(b) => b,
                    Err(e) => {
                        proof {
                            lemma_encode_numbers_prefix_err(ts, (k + 1) as int);
                        }
                        return Err(VarError::Number(e));
                    },
                };
                push_bytes(out, b.as_slice());
                k = k + 1;
            }
            assert(ts.take(n as int) =~= ts);
            Ok(())
        },
        VarValue::StringArray { max_len, elements } => {
            let n = elements.len();
            if n == 0 {
                return Err(VarError::EmptyArray);
            }
            if n > 256 {
                return Err(VarError::TooManyElements { len: n });
            }
            let w = *max_len;
            if w > 255 {
                return Err(VarError::ElementTooLong { max_len: w });
            }
            assert(n * w <= 256 * 255) by (nonlinear_arith)
                requires
                    n <= 256,
                    w <= 255,
            ;
            let data_len = n * w;
            if data_len + 3 > 255 {
                return Err(VarError::RecordTooLong { data_len });
            }
            out.push(0x00);
            out.push((data_len + 3) as u8);
            out.push((n - 1) as u8);
            out.push(0x00);
            out.push(w as u8);
            let ghost head = out@;
            let ghost es = byte_strings(elements@);
            let mut k: usize = 0;
            while k < n
                invariant
                    k <= n == elements@.len(),
                    es == byte_strings(elements@),
                    out@ == head + pad_all(es.take(k as int), w as nat),
                decreases n - k,
            {
                assert(es.take(k + 1).drop_last() =~= es.take(k as int));
                assert(es.take(k + 1).last() == elements@[k as int]@);
                push_slot(out, &elements[k], w);
                k = k + 1;
            }
            assert(es.take(n as int) =~= es);
            Ok(())
        },
    }
}

proof fn lemma_encode_numbers_prefix_err(ts: Seq<Seq<char>>, n: int)
    requires
        0 <= n <= ts.len(),
        encode_numbers(ts.take(n)) is Err,
    ensures
        encode_numbers(ts) == encode_numbers(ts.take(n)),
    decreases ts.len() - n,
{
    if n < ts.len() {
        assert(ts.take(n + 1).drop_last() =~= ts.take(n));
        lemma_encode_numbers_prefix_err(ts, n + 1);
    } else {
        assert(ts.take(n) =~= ts);
    }
}

fn push_bytes(out: &mut Vec<u8>, b: &[u8])
    ensures
        final(out)@ == old(out)@ + b@,
{
    let ghost before = out@;
    let mut k: usize = 0;
    while k < b.len()
        invariant
            k <= b@.len(),
            out@ == before + b@.take(k as int),
        decreases b.len() - k,
    {
        out.push(b[k]);
        k = k + 1;
        assert(out@ =~= before + b@.take(k as int));
    }
    assert(b@.take(b@.len() as int) =~= b@);
}

/// Append `content` cut or zero-padded to `len` bytes.
fn push_slot(out: &mut Vec<u8>, content: &Vec<u8>, len: usize)
    ensures
        final(out)@ == old(out)@ + pad_slot(content@, len as nat),
{
    let ghost before = out@;
    let mut k: usize = 0;
    while k < len
        invariant
            k <= len,
            out@ == before + pad_slot(content@, len as nat).take(k as int),
        decreases len - k,
    {
        let b = if k < content.len() {
            content[k]
        } else {
            0u8
        };
        out.push(b);
        k = k + 1;
        assert(out@ =~= before + pad_slot(content@, len as nat).take(k as int));
    }
    assert(pad_slot(content@, len as nat).take(len as int) =~= pad_slot(content@, len as nat));
}


// ── what decoding gives back of an encoding ─────────────────────────────

/// The canonical text of a number: what decoding its encoding gives.
pub open spec fn canonical_number(t: Seq<char>) -> Seq<char> {
    decode_spec(encode_spec(t)->Ok_0)->Some_0
}

/// What decoding gives back of an encoded value: numbers as their canonical text,
/// strings cut or padded to their slot and stripped of trailing NULs.
pub open spec fn canonical(v: ValueView) -> ValueView {
    match v {
        ValueView::Num(t) => ValueView::Num(canonical_number(t)),
        ValueView::Str(s) => ValueView::Str(trim_nulls(pad_slot(s, 16))),
        ValueView::NumArr(ts) => ValueView::NumArr(ts.map_values(|t: Seq<char>| canonical_number(t))),
        ValueView::StrArr(w, es) => ValueView::StrArr(
            w,
            es.map_values(|e: Seq<u8>| trim_nulls(pad_slot(e, w))),
        ),
    }
}

/// A value whose record decodes to the same kind of value: arrays of at least two
/// elements (a one-element array is stored like a scalar), string elements neither 0
/// bytes wide nor 136 (`0x88`, the numeric type mark).
pub open spec fn keeps_shape(v: ValueView) -> bool {
    match v {
        ValueView::NumArr(ts) => ts.len() >= 2,
        ValueView::StrArr(w, es) => es.len() >= 2 && w != 0 && w != 0x88,
        _ => true,
    }
}

proof fn lemma_encode_numbers(ts: Seq<Seq<char>>)
    requires
        encode_numbers(ts) is Ok,
    ensures
        encode_numbers(ts)->Ok_0.len() == 8 * ts.len(),
        forall|i: int|
            0 <= i < ts.len() ==> encode_spec(#[trigger] ts[i]) is Ok && encode_numbers(ts)->Ok_0.subrange(
                8 * i,
                8 * i + 8,
            ) == encode_spec(ts[i])->Ok_0,
    decreases ts.len(),
{
    if ts.len() > 0 {
        let p = ts.drop_last();
        lemma_encode_numbers(p);
        let b = encode_numbers(ts)->Ok_0;
        let pb = encode_numbers(p)->Ok_0;
        let lb = encode_spec(ts.last())->Ok_0;
        assert(b == pb + lb);
        assert forall|i: int| 0 <= i < ts.len() implies encode_spec(#[trigger] ts[i]) is Ok
            && b.subrange(8 * i, 8 * i + 8) == encode_spec(ts[i])->Ok_0 by {
            if i < ts.len() - 1 {
                assert(ts[i] == p[i]);
                assert(b.subrange(8 * i, 8 * i + 8) =~= pb.subrange(8 * i, 8 * i + 8));
            } else {
                assert(b.subrange(8 * i, 8 * i + 8) =~= lb);
            }
        }
    }
}

proof fn lemma_pad_all(es: Seq<Seq<u8>>, w: nat)
    ensures
        pad_all(es, w).len() == w * es.len(),
        forall|i: int|
            0 <= i < es.len() ==> pad_all(es, w).subrange(w * i, w * i + w) == pad_slot(
                #[trigger] es[i],
                w,
            ),
    decreases es.len(),
{
    if es.len() > 0 {
        let p = es.drop_last();
        lemma_pad_all(p, w);
        let b = pad_all(es, w);
        let pb = pad_all(p, w);
        assert(w * es.len() == w * p.len() + w) by (nonlinear_arith)
            requires
                es.len() == p.len() + 1,
        ;
        assert forall|i: int| 0 <= i < es.len() implies b.subrange(w * i, w * i + w) == pad_slot(
            #[trigger] es[i],
            w,
        ) by {
            if i < es.len() - 1 {
                assert(es[i] == p[i]);
                assert(w * i + w <= w * p.len()) by (nonlinear_arith)
                    requires
                        0 <= i < p.len(),
                ;
                assert(0 <= w * i) by (nonlinear_arith)
                    requires
                        0 <= i,
                ;
                assert(b.subrange(w * i, w * i + w) =~= pb.subrange(w * i, w * i + w));
            } else {
                assert(w * i == w * p.len());
                assert(b.subrange(w * i, w * i + w) =~= pad_slot(es.last(), w));
            }
        }
    }
}

/// One encoded record decodes to its canonical value.
proof fn lemma_record_decodes(v: ValueView)
    requires
        encode_record(v) is Ok,
        keeps_shape(v),
    ensures
        decode_from(encode_record(v)->Ok_0, 0) == Ok::<Seq<ValueView>, DecodeFault>(seq![canonical(v)]),
{
    match v {
        ValueView::Num(t) => lemma_num_record(t),
        ValueView::Str(s) => lemma_str_record(s),
        ValueView::NumArr(ts) => lemma_numarr_record(ts),
        ValueView::StrArr(w, es) => lemma_strarr_record(w, es),
    }
}

/// The decoding of a record `r` holding `v` in `dl` data bytes after its 5-byte head.
proof fn lemma_single_record(r: Seq<u8>, dl: int, v: ValueView)
    requires
        r.len() == 5 + dl,
        dl >= 0,
        r[0] == 0,
        r[1] + 1 == dl + 4,
        record_value(0, r[2], r[4], r.subrange(5, 5 + dl)) == Ok::<ValueView, DecodeFault>(v),
    ensures
        decode_from(r, 0) == Ok::<Seq<ValueView>, DecodeFault>(seq![v]),
{
    assert(decode_from(r, 5 + dl) == Ok::<Seq<ValueView>, DecodeFault>(Seq::empty()));
    assert(seq![v] + Seq::<ValueView>::empty() =~= seq![v]);
}

proof fn lemma_num_record(t: Seq<char>)
    requires
        encode_spec(t) is Ok,
    ensures
        decode_from(encode_record(ValueView::Num(t))->Ok_0, 0) == Ok::<Seq<ValueView>, DecodeFault>(
            seq![canonical(ValueView::Num(t))],
        ),
{
    let r = encode_record(ValueView::Num(t))->Ok_0;
    let b = encode_spec(t)->Ok_0;
    assert(r.subrange(5, 13) =~= b);
    lemma_single_record(r, 8, canonical(ValueView::Num(t)));
}

proof fn lemma_str_record(s: Seq<u8>)
    ensures
        decode_from(encode_record(ValueView::Str(s))->Ok_0, 0) == Ok::<Seq<ValueView>, DecodeFault>(
            seq![canonical(ValueView::Str(s))],
        ),
{
    let r = encode_record(ValueView::Str(s))->Ok_0;
    assert(r.subrange(5, 21) =~= pad_slot(s, 16));
    lemma_single_record(r, 16, canonical(ValueView::Str(s)));
}

#[verifier::spinoff_prover]
proof fn lemma_numarr_record(ts: Seq<Seq<char>>)
    requires
        encode_record(ValueView::NumArr(ts)) is Ok,
        ts.len() >= 2,
    ensures
        decode_from(encode_record(ValueView::NumArr(ts))->Ok_0, 0) == Ok::<Seq<ValueView>, DecodeFault>(
            seq![canonical(ValueView::NumArr(ts))],
        ),
{
    let n = ts.len();
    let r = encode_record(ValueView::NumArr(ts))->Ok_0;
    lemma_encode_numbers(ts);
    let b = encode_numbers(ts)->Ok_0;
    assert(r == seq![0u8, (n * 8 + 3) as u8, (n - 1) as u8, 0x00, NUMERIC_TYPE] + b);
    assert(r.subrange(5, (5 + 8 * n) as int) =~= b);
    assert(numbers(b, n) =~= ts.map_values(|t: Seq<char>| canonical_number(t)));
    assert(record_value(0, r[2], r[4], b) == Ok::<ValueView, DecodeFault>(
        canonical(ValueView::NumArr(ts)),
    ));
    lemma_single_record(r, (8 * n) as int, canonical(ValueView::NumArr(ts)));
}

#[verifier::spinoff_prover]
proof fn lemma_strarr_record(w: nat, es: Seq<Seq<u8>>)
    requires
        encode_record(ValueView::StrArr(w, es)) is Ok,
        es.len() >= 2,
        w != 0,
        w != 0x88,
    ensures
        decode_from(encode_record(ValueView::StrArr(w, es))->Ok_0, 0) == Ok::<Seq<ValueView>, DecodeFault>(
            seq![canonical(ValueView::StrArr(w, es))],
        ),
{
    let n = es.len();
    let r = encode_record(ValueView::StrArr(w, es))->Ok_0;
    lemma_pad_all(es, w);
    let b = pad_all(es, w);
    assert(w * n == n * w) by (nonlinear_arith);
    assert(r == seq![0u8, (n * w + 3) as u8, (n - 1) as u8, 0x00, w as u8] + b);
    assert(r.subrange(5, (5 + n * w) as int) =~= b);
    assert(strings(b, n, w) =~= es.map_values(|e: Seq<u8>| trim_nulls(pad_slot(e, w))));
    assert(record_value(0, r[2], r[4], b) == Ok::<ValueView, DecodeFault>(
        canonical(ValueView::StrArr(w, es)),
    ));
    lemma_single_record(r, (n * w) as int, canonical(ValueView::StrArr(w, es)));
}

/// Decoding a payload that ends in a decodable one, from where that one starts.
proof fn lemma_decode_shift(a: Seq<u8>, b: Seq<u8>, j: int)
    requires
        0 <= j <= b.len(),
        decode_from(b, j) is Ok,
    ensures
        decode_from(a + b, a.len() + j) == decode_from(b, j),
    decreases b.len() - j,
{
    let p = a + b;
    let pos = a.len() + j;
    if j < b.len() {
        assert(p[pos] == b[j]);
        if j + 5 <= b.len() {
            assert(p[pos + 1] == b[j + 1] && p[pos + 2] == b[j + 2] && p[pos + 4] == b[j + 4]);
            let rl = b[j + 1] + 1;
            if rl >= 4 && j + 5 + rl - 4 <= b.len() {
                let dl = rl - 4;
                assert(p.subrange(pos + 5, pos + 5 + dl) =~= b.subrange(j + 5, j + 5 + dl));
                lemma_record_value_pos(a.len() + j, j, b[j + 2], b[j + 4], b.subrange(j + 5, j + 5 + dl));
                if record_value(j, b[j + 2], b[j + 4], b.subrange(j + 5, j + 5 + dl)) is Ok {
                    lemma_decode_shift(a, b, j + 5 + dl);
                }
            }
        }
    }
}

/// A record's value does not depend on where it sits, when it decodes.
proof fn lemma_record_value_pos(p1: int, p2: int, dm: u8, ty: u8, data: Seq<u8>)
    ensures
        record_value(p2, dm, ty, data) is Ok ==> record_value(p1, dm, ty, data) == record_value(
            p2,
            dm,
            ty,
            data,
        ),
{
}

/// Decoding two decodable payloads one after the other.
proof fn lemma_decode_append(p: Seq<u8>, r: Seq<u8>, i: int)
    requires
        0 <= i <= p.len(),
        decode_from(p, i) is Ok,
        decode_from(r, 0) is Ok,
    ensures
        decode_from(p + r, i) == Ok::<Seq<ValueView>, DecodeFault>(
            decode_from(p, i)->Ok_0 + decode_from(r, 0)->Ok_0,
        ),
    decreases p.len() - i,
{
    let q = p + r;
    if i == p.len() {
        lemma_decode_shift(p, r, 0);
        assert(decode_from(p, i)->Ok_0 =~= Seq::<ValueView>::empty());
        assert(Seq::<ValueView>::empty() + decode_from(r, 0)->Ok_0 =~= decode_from(r, 0)->Ok_0);
    } else {
        assert(q[i] == p[i]);
        assert(q[i + 1] == p[i + 1] && q[i + 2] == p[i + 2] && q[i + 4] == p[i + 4]);
        let rl = p[i + 1] + 1;
        let dl = rl - 4;
        assert(q.subrange(i + 5, i + 5 + dl) =~= p.subrange(i + 5, i + 5 + dl));
        lemma_decode_append(p, r, i + 5 + dl);
        let v = record_value(i, p[i + 2], p[i + 4], p.subrange(i + 5, i + 5 + dl))->Ok_0;
        assert(seq![v] + (decode_from(p, i + 5 + dl)->Ok_0 + decode_from(r, 0)->Ok_0) =~= (seq![v]
            + decode_from(p, i + 5 + dl)->Ok_0) + decode_from(r, 0)->Ok_0);
    }
}

/// Encoding values and decoding the payload gives each value back in canonical form,
/// for values that keep their shape (arrays of two or more elements, string elements
/// neither 0 nor 136 bytes wide).
pub proof fn lemma_encode_then_decode(vs: Seq<ValueView>)
    requires
        encode_all(vs) is Ok,
        forall|i: int| 0 <= i < vs.len() ==> keeps_shape(#[trigger] vs[i]),
    ensures
        decode_payload_spec(encode_all(vs)->Ok_0) == Ok::<Seq<ValueView>, DecodeFault>(
            vs.map_values(|v: ValueView| canonical(v)),
        ),
    decreases vs.len(),
{
    if vs.len() == 0 {
        assert(vs.map_values(|v: ValueView| canonical(v)) =~= Seq::<ValueView>::empty());
    } else {
        let pre = vs.drop_last();
        assert forall|i: int| 0 <= i < pre.len() implies keeps_shape(#[trigger] pre[i]) by {
            assert(pre[i] == vs[i]);
        }
        lemma_encode_then_decode(pre);
        let p = encode_all(pre)->Ok_0;
        let r = encode_record(vs.last())->Ok_0;
        assert(keeps_shape(vs[vs.len() - 1]));
        lemma_record_decodes(vs.last());
        lemma_decode_append(p, r, 0);
        assert(pre.map_values(|v: ValueView| canonical(v)) + seq![canonical(vs.last())]
            =~= vs.map_values(|v: ValueView| canonical(v)));
    }
}


/// A number text that encodes and is already in the form decoding gives back.
pub open spec fn canonical_text(t: Seq<char>) -> bool {
    encode_spec(t) is Ok && canonical_number(t) == t
}

/// Bytes that fit a slot `w` wide and do not end in NUL.
pub open spec fn fits_slot(s: Seq<u8>, w: nat) -> bool {
    s.len() <= w && (s.len() == 0 || s.last() != 0)
}

/// A value that encoding and then decoding gives back unchanged: canonical numbers,
/// strings that fit their slot without trailing NULs, arrays of 2 or more elements whose
/// record stays within the 8-bit length, string elements neither 0 nor 136 bytes wide.
pub open spec fn stays(v: ValueView) -> bool {
    match v {
        ValueView::Num(t) => canonical_text(t),
        ValueView::Str(s) => fits_slot(s, 16),
        ValueView::NumArr(ts) => 2 <= ts.len() && ts.len() * 8 + 3 <= 255 && forall|i: int|
            0 <= i < ts.len() ==> canonical_text(#[trigger] ts[i]),
        ValueView::StrArr(w, es) => 2 <= es.len() && 1 <= w <= 255 && w != 0x88 && es.len() * w + 3 <= 255
            && forall|i: int| 0 <= i < es.len() ==> fits_slot(#[trigger] es[i], w),
    }
}

proof fn lemma_pad_trim(s: Seq<u8>, w: nat)
    requires
        fits_slot(s, w),
    ensures
        trim_nulls(pad_slot(s, w)) == s,
    decreases w,
{
    if w == s.len() {
        assert(pad_slot(s, w) =~= s);
    } else {
        lemma_pad_trim(s, (w - 1) as nat);
        assert(pad_slot(s, w).drop_last() =~= pad_slot(s, (w - 1) as nat));
    }
}

proof fn lemma_numbers_encode(ts: Seq<Seq<char>>)
    requires
        forall|i: int| 0 <= i < ts.len() ==> canonical_text(#[trigger] ts[i]),
    ensures
        encode_numbers(ts) is Ok,
    decreases ts.len(),
{
    if ts.len() > 0 {
        let p = ts.drop_last();
        assert forall|i: int| 0 <= i < p.len() implies canonical_text(#[trigger] p[i]) by {
            assert(p[i] == ts[i]);
        }
        lemma_numbers_encode(p);
        assert(canonical_text(ts[ts.len() - 1]));
    }
}

proof fn lemma_stays_record(v: ValueView)
    requires
        stays(v),
    ensures
        encode_record(v) is Ok,
        keeps_shape(v),
        canonical(v) == v,
{
    if v is Num {
        assert(canonical_text(v->Num_0));
    } else if v is Str {
        lemma_pad_trim(v->Str_0, 16);
    } else if v is NumArr {
        let ts = v->NumArr_0;
        lemma_numbers_encode(ts);
        assert(ts.map_values(|t: Seq<char>| canonical_number(t)) =~= ts) by {
            assert forall|i: int| 0 <= i < ts.len() implies canonical_number(ts[i]) == ts[i] by {
                assert(canonical_text(ts[i]));
            }
        }
    } else {
        let w = v->StrArr_0;
        let es = v->StrArr_1;
        let n = es.len();
        assert(n <= 256) by (nonlinear_arith)
            requires
                n * w + 3 <= 255,
                w >= 1,
        ;
        assert(es.map_values(|e: Seq<u8>| trim_nulls(pad_slot(e, w))) =~= es) by {
            assert forall|i: int| 0 <= i < es.len() implies trim_nulls(pad_slot(es[i], w)) == es[i] by {
                assert(fits_slot(es[i], w));
                lemma_pad_trim(es[i], w);
            }
        }
    }
}

proof fn lemma_stays_encode(vs: Seq<ValueView>)
    requires
        forall|i: int| 0 <= i < vs.len() ==> stays(#[trigger] vs[i]),
    ensures
        encode_all(vs) is Ok,
        forall|i: int| 0 <= i < vs.len() ==> keeps_shape(#[trigger] vs[i]),
        vs.map_values(|v: ValueView| canonical(v)) == vs,
    decreases vs.len(),
{
    if vs.len() > 0 {
        let p = vs.drop_last();
        assert forall|i: int| 0 <= i < p.len() implies stays(#[trigger] p[i]) by {
            assert(p[i] == vs[i]);
        }
        lemma_stays_encode(p);
        assert(stays(vs[vs.len() - 1]));
        lemma_stays_record(vs.last());
        assert forall|i: int| 0 <= i < vs.len() implies keeps_shape(#[trigger] vs[i]) by {
            if i < p.len() {
                assert(vs[i] == p[i]);
            }
        }
        assert(vs.map_values(|v: ValueView| canonical(v)) =~= vs) by {
            assert forall|i: int| 0 <= i < vs.len() implies canonical(vs[i]) == vs[i] by {
                if i < p.len() {
                    assert(vs[i] == p[i]);
                    assert(p.map_values(|v: ValueView| canonical(v))[i] == p[i]);
                }
            }
        }
    }
}

/// Values that stay themselves (see [`stays`]) encode, and the payload decodes to
/// exactly those values.
pub proof fn lemma_encode_decode_exact(vs: Seq<ValueView>)
    requires
        forall|i: int| 0 <= i < vs.len() ==> stays(#[trigger] vs[i]),
    ensures
        encode_all(vs) is Ok,
        decode_payload_spec(encode_all(vs)->Ok_0) == Ok::<Seq<ValueView>, DecodeFault>(vs),
{
    lemma_stays_encode(vs);
    lemma_encode_then_decode(vs);
}

// ── the text form ────────────────────────────────────────────────────────

/// A byte as it appears inside a quoted string: `\\`, `\"`, itself when printable
/// ASCII, else `\xHH`.
pub open spec fn escape_byte(b: u8) -> Seq<char> {
    if b == 0x5C {
        seq!['\\', '\\']
    } else if b == 0x22 {
        seq!['\\', '"']
    } else if 0x20 <= b <= 0x7E {
        seq![b as char]
    } else {
        seq!['\\', 'x'] + textbuf::padded_hex(b as nat, 2)
    }
}

pub open spec fn escape_spec(b: Seq<u8>) -> Seq<char>
    decreases b.len(),
{
    if b.len() == 0 {
        Seq::empty()
    } else {
        escape_spec(b.drop_last()) + escape_byte(b.last())
    }
}

/// Escape bytes for a quoted line.
pub fn escape_string(bytes: &[u8]) -> (s: String)
    ensures
        s@ == escape_spec(bytes@),
{
    let mut s = String::new();
    let mut i: usize = 0;
    while i < bytes.len()
        invariant
            i <= bytes@.len(),
            s@ == escape_spec(bytes@.take(i as int)),
        decreases bytes.len() - i,
    {
        let b = bytes[i];
        let ghost before = s@;
        if b == 0x5C {
            textbuf::push_char(&mut s, '\\');
            textbuf::push_char(&mut s, '\\');
        } else if b == 0x22 {
            textbuf::push_char(&mut s, '\\');
            textbuf::push_char(&mut s, '"');
        } else if b >= 0x20 && b <= 0x7E {
            textbuf::push_char(&mut s, textbuf::char_from_ascii(b));
        } else {
            textbuf::push_char(&mut s, '\\');
            textbuf::push_char(&mut s, 'x');
            textbuf::push_padded_hex(&mut s, b as u64, 2);
        }
        assert(bytes@.take(i + 1).drop_last() =~= bytes@.take(i as int));
        assert(s@ =~= before + escape_byte(b));
        i = i + 1;
    }
    assert(bytes@.take(bytes@.len() as int) =~= bytes@);
    s
}

pub open spec fn quoted_line(b: Seq<u8>) -> Seq<char> {
    seq!['"'] + escape_spec(b) + seq!['"', '\n']
}

pub open spec fn number_lines(ts: Seq<Seq<char>>) -> Seq<char>
    decreases ts.len(),
{
    if ts.len() == 0 {
        Seq::empty()
    } else {
        number_lines(ts.drop_last()) + ts.last() + seq!['\n']
    }
}

pub open spec fn quoted_lines(es: Seq<Seq<u8>>) -> Seq<char>
    decreases es.len(),
{
    if es.len() == 0 {
        Seq::empty()
    } else {
        quoted_lines(es.drop_last()) + quoted_line(es.last())
    }
}

/// The lines of one value.
pub open spec fn value_text(v: ValueView) -> Seq<char> {
    match v {
        ValueView::Num(t) => t + seq!['\n'],
        ValueView::Str(s) => quoted_line(s),
        ValueView::NumArr(ts) => "DIM ("@ + textbuf::decimal((ts.len() - 1) as nat) + ")\n"@ + number_lines(ts),
        ValueView::StrArr(w, es) => "DIM $("@ + textbuf::decimal((es.len() - 1) as nat) + ")*"@
            + textbuf::decimal(w) + seq!['\n'] + quoted_lines(es),
    }
}

pub open spec fn values_text(vs: Seq<ValueView>) -> Seq<char>
    decreases vs.len(),
{
    if vs.len() == 0 {
        Seq::empty()
    } else {
        values_text(vs.drop_last()) + value_text(vs.last())
    }
}

pub open spec fn opt_text(s: Option<String>) -> Option<Seq<char>> {
    match s {
        Some(t) => Some(t@),
        None => None,
    }
}

/// The SDAV text of a file name and values.
pub open spec fn to_ascii_spec(filename: Option<Seq<char>>, vs: Seq<ValueView>) -> Seq<char> {
    "; sde-variables:1.0 pc1500\n"@ + "; Count: "@ + textbuf::decimal(vs.len()) + seq!['\n'] + match filename {
        Some(n) => if n.len() > 0 {
            "; Filename: "@ + n + seq!['\n']
        } else {
            Seq::empty()
        },
        None => Seq::empty(),
    } + values_text(vs)
}

/// No array is empty.
pub open spec fn arrays_filled(vs: Seq<ValueView>) -> bool {
    forall|i: int|
        0 <= i < vs.len() ==> match #[trigger] vs[i] {
            ValueView::NumArr(ts) => ts.len() > 0,
            ValueView::StrArr(_, es) => es.len() > 0,
            _ => true,
        }
}

/// Decoded arrays are never empty: an array record holds one more element than its
/// dimension byte says, and that byte is not zero.
pub proof fn lemma_decoded_filled(p: Seq<u8>, pos: int)
    ensures
        decode_from(p, pos) matches Ok(vs) ==> arrays_filled(vs),
    decreases p.len() - pos,
{
    if 0 <= pos < p.len() && p[pos] == 0 && pos + 5 <= p.len() {
        let rl = p[pos + 1] + 1;
        let ds = pos + 5;
        if rl >= 4 && ds + (rl - 4) <= p.len() {
            lemma_decoded_filled(p, ds + (rl - 4));
            if let Ok(vs) = decode_from(p, pos) {
                assert forall|i: int| 0 <= i < vs.len() implies match #[trigger] vs[i] {
                    ValueView::NumArr(ts) => ts.len() > 0,
                    ValueView::StrArr(_, es) => es.len() > 0,
                    _ => true,
                } by {
                    if i > 0 {
                        assert(vs[i] == decode_from(p, ds + (rl - 4))->Ok_0[i - 1]);
                    }
                }
            }
        }
    }
}

/// Render a file as SDAV text.
pub fn to_ascii(file: &VarFile) -> (s: String)
    requires
        arrays_filled(value_views(file.values@)),
    ensures
        s@ == to_ascii_spec(opt_text(file.filename), value_views(file.values@)),
{
    let ghost vs = value_views(file.values@);
    let mut s = String::new();
    textbuf::push_str(&mut s, "; sde-variables:1.0 pc1500\n");
    textbuf::push_str(&mut s, "; Count: ");
    textbuf::push_decimal(&mut s, file.values.len() as u64);
    textbuf::push_char(&mut s, '\n');
    match &file.filename {
        Some(name) => {
            if textbuf::chars_of(name.as_str()).len() > 0 {
                textbuf::push_str(&mut s, "; Filename: ");
                textbuf::push_str(&mut s, name.as_str());
                textbuf::push_char(&mut s, '\n');
            }
        },
        None => {},
    }
    let ghost head = s@;
    let mut i: usize = 0;
    while i < file.values.len()
        invariant
            i <= file.values@.len(),
            vs == value_views(file.values@),
            arrays_filled(vs),
            s@ == head + values_text(vs.take(i as int)),
        decreases file.values.len() - i,
    {
        assert(vs.take(i + 1).drop_last() =~= vs.take(i as int));
        assert(vs[i as int] == file.values@[i as int]@);
        let ghost before = s@;
        push_value_text(&mut s, &file.values[i]);
        assert(s@ =~= head + values_text(vs.take(i + 1)));
        i = i + 1;
    }
    assert(vs.take(vs.len() as int) =~= vs);
    s
}

/// Append the lines of one value.
fn push_value_text(s: &mut String, v: &VarValue)
    requires
        match v@ {
            ValueView::NumArr(ts) => ts.len() > 0,
            ValueView::StrArr(_, es) => es.len() > 0,
            _ => true,
        },
    ensures
        final(s)@ == old(s)@ + value_text(v@),
{
    let ghost before = s@;
    match v {
        VarValue::NumericScalar(text) => {
            textbuf::push_str(s, text.as_str());
            textbuf::push_char(s, '\n');
        },
        VarValue::StringScalar(bytes) => {
            push_quoted(s, bytes.as_slice());
        },
        VarValue::NumericArray(elements) => {
            textbuf::push_str(s, "DIM (");
            textbuf::push_decimal(s, (elements.len() - 1) as u64);
            textbuf::push_str(s, ")\n");
            let ghost head = s@;
            let ghost ts = texts(elements@);
            let mut k: usize = 0;
            while k < elements.len()
                invariant
                    k <= elements@.len(),
                    ts == texts(elements@),
                    s@ == head + number_lines(ts.take(k as int)),
                decreases elements.len() - k,
            {
                assert(ts.take(k + 1).drop_last() =~= ts.take(k as int));
                textbuf::push_str(s, elements[k].as_str());
                textbuf::push_char(s, '\n');
                assert(s@ =~= head + number_lines(ts.take(k + 1)));
                k = k + 1;
            }
            assert(ts.take(ts.len() as int) =~= ts);
        },
        VarValue::StringArray { max_len, elements } => {
            textbuf::push_str(s, "DIM $(");
            textbuf::push_decimal(s, (elements.len() - 1) as u64);
            textbuf::push_str(s, ")*");
            textbuf::push_decimal(s, *max_len as u64);
            textbuf::push_char(s, '\n');
            let ghost head = s@;
            let ghost es = byte_strings(elements@);
            let mut k: usize = 0;
            while k < elements.len()
                invariant
                    k <= elements@.len(),
                    es == byte_strings(elements@),
                    s@ == head + quoted_lines(es.take(k as int)),
                decreases elements.len() - k,
            {
                assert(es.take(k + 1).drop_last() =~= es.take(k as int));
                push_quoted(s, elements[k].as_slice());
                assert(s@ =~= head + quoted_lines(es.take(k + 1)));
                k = k + 1;
            }
            assert(es.take(es.len() as int) =~= es);
        },
    }
}

fn push_quoted(s: &mut String, bytes: &[u8])
    ensures
        final(s)@ == old(s)@ + quoted_line(bytes@),
{
    let ghost before = s@;
    textbuf::push_char(s, '"');
    let e = escape_string(bytes);
    textbuf::push_str(s, e.as_str());
    textbuf::push_char(s, '"');
    textbuf::push_char(s, '\n');
    assert(s@ =~= before + quoted_line(bytes@));
}


/// Value of a hexadecimal digit byte.
pub open spec fn hex_val(b: u8) -> Option<nat> {
    if 0x30 <= b <= 0x39 {
        Some((b - 0x30) as nat)
    } else if 0x41 <= b <= 0x46 {
        Some((b - 0x37) as nat)
    } else if 0x61 <= b <= 0x66 {
        Some((b - 0x57) as nat)
    } else {
        None
    }
}

/// Two bytes read as a hexadecimal byte value (`u8::from_str_radix(_, 16)`): two hex
/// digits, or `+` and one.
pub open spec fn hex_pair(h0: u8, h1: u8) -> Option<u8> {
    if h0 == 0x2B {
        match hex_val(h1) {
            Some(v) => Some(v as u8),
            None => None,
        }
    } else {
        match (hex_val(h0), hex_val(h1)) {
            (Some(a), Some(b)) => Some((a * 16 + b) as u8),
            _ => None,
        }
    }
}

/// Undoing the escapes of a quoted string's bytes from `i` on: `\\`, `\"`, `\xHH`; any
/// other escape is an error, a final lone `\` is kept.
pub open spec fn unescape_from(b: Seq<u8>, i: int) -> Option<Seq<u8>>
    decreases b.len() - i,
{
    if i < 0 || i >= b.len() {
        Some(Seq::empty())
    } else if b[i] == 0x5C && i + 1 < b.len() {
        let c = b[i + 1];
        if c == 0x5C || c == 0x22 {
            match unescape_from(b, i + 2) {
                Some(r) => Some(seq![c] + r),
                None => None,
            }
        } else if c == 0x78 && i + 3 < b.len() {
            match hex_pair(b[i + 2], b[i + 3]) {
                None => None,
                Some(v) => match unescape_from(b, i + 4) {
                    Some(r) => Some(seq![v] + r),
                    None => None,
                },
            }
        } else {
            None
        }
    } else {
        match unescape_from(b, i + 1) {
            Some(r) => Some(seq![b[i]] + r),
            None => None,
        }
    }
}

fn hex_digit_value(b: u8) -> (r: Option<u8>)
    ensures
        match r {
            Some(v) => hex_val(b) == Some(v as nat),
            None => hex_val(b) is None,
        },
{
    if b >= 0x30 && b <= 0x39 {
        Some(b - 0x30)
    } else if b >= 0x41 && b <= 0x46 {
        Some(b - 0x37)
    } else if b >= 0x61 && b <= 0x66 {
        Some(b - 0x57)
    } else {
        None
    }
}

fn hex_pair_value(h0: u8, h1: u8) -> (r: Option<u8>)
    ensures
        r == hex_pair(h0, h1),
{
    if h0 == 0x2B {
        return hex_digit_value(h1);
    }
    match (hex_digit_value(h0), hex_digit_value(h1)) {
        (Some(a), Some(b)) => Some(a * 16 + b),
        _ => None,
    }
}

/// Undo the escapes of a quoted string's content.
pub fn unescape_bytes(bytes: &[u8]) -> (r: Option<Vec<u8>>)
    ensures
        match r {
            Some(v) => unescape_from(bytes@, 0) == Some(v@),
            None => unescape_from(bytes@, 0) is None,
        },
{
    let n = bytes.len();
    let mut out: Vec<u8> = Vec::new();
    let mut i: usize = 0;
    while i < n
        invariant
            i <= n == bytes@.len(),
            unescape_from(bytes@, 0) == match unescape_from(bytes@, i as int) {
                Some(r) => Some(out@ + r),
                None => None::<Seq<u8>>,
            },
        decreases n - i,
    {
        let ghost before = out@;
        let ghost i0 = i as int;
        if bytes[i] == 0x5C && n - i > 1 {
            let c = bytes[i + 1];
            if c == 0x5C || c == 0x22 {
                out.push(c);
                i = i + 2;
            } else if c == 0x78 && n - i > 3 {
                match hex_pair_value(bytes[i + 2], bytes[i + 3]) {
                    Some(v) => {
                        out.push(v);
                        i = i + 4;
                    },
                    None => {
                        return None;
                    },
                }
            } else {
                return None;
            }
        } else {
            out.push(bytes[i]);
            i = i + 1;
        }
        proof {
            match unescape_from(bytes@, i as int) {
                Some(r) => assert(before + (seq![out@.last()] + r) =~= out@ + r),
                None => {},
            }
        }
    }
    assert(out@ + Seq::<u8>::empty() =~= out@);
    Some(out)
}

/// Undo the escapes of a quoted string's content (`\\`, `\"`, `\xHH`).
pub fn unescape_string(text: &str) -> (r: Result<Vec<u8>, VarError>)
    ensures
        match r {
            Ok(v) => unescape_from(text.spec_bytes(), 0) == Some(v@),
            Err(_) => unescape_from(text.spec_bytes(), 0) is None,
        },
{
    match unescape_bytes(text.as_bytes()) {
        Some(v) => Ok(v),
        None => Err(VarError::Syntax(String::from_str("bad escape sequence"))),
    }
}

// ── UTF-8 ────────────────────────────────────────────────────────────────

/// The UTF-8 encoding of `c`.
pub open spec fn utf8_char(c: char) -> Seq<u8> {
    let v = c as u32;
    if v < 0x80 {
        seq![v as u8]
    } else if v < 0x800 {
        seq![(0xC0 + v / 64) as u8, (0x80 + v % 64) as u8]
    } else if v < 0x10000 {
        seq![(0xE0 + v / 4096) as u8, (0x80 + (v / 64) % 64) as u8, (0x80 + v % 64) as u8]
    } else {
        seq![
            (0xF0 + v / 262144) as u8,
            (0x80 + (v / 4096) % 64) as u8,
            (0x80 + (v / 64) % 64) as u8,
            (0x80 + v % 64) as u8,
        ]
    }
}

pub open spec fn utf8_of(cs: Seq<char>) -> Seq<u8>
    decreases cs.len(),
{
    if cs.len() == 0 {
        Seq::empty()
    } else {
        utf8_of(cs.drop_last()) + utf8_char(cs.last())
    }
}

/// The UTF-8 bytes of `cs`.
pub fn utf8_bytes(cs: &[char]) -> (b: Vec<u8>)
    ensures
        b@ == utf8_of(cs@),
{
    let mut b: Vec<u8> = Vec::new();
    let mut i: usize = 0;
    while i < cs.len()
        invariant
            i <= cs@.len(),
            b@ == utf8_of(cs@.take(i as int)),
        decreases cs.len() - i,
    {
        let ghost before = b@;
        let c = cs[i];
        let v = c as u32;
        if v < 0x80 {
            b.push(v as u8);
        } else if v < 0x800 {
            b.push((0xC0 + v / 64) as u8);
            b.push((0x80 + v % 64) as u8);
        } else if v < 0x10000 {
            b.push((0xE0 + v / 4096) as u8);
            b.push((0x80 + (v / 64) % 64) as u8);
            b.push((0x80 + v % 64) as u8);
        } else {
            b.push((0xF0 + v / 262144) as u8);
            b.push((0x80 + (v / 4096) % 64) as u8);
            b.push((0x80 + (v / 64) % 64) as u8);
            b.push((0x80 + v % 64) as u8);
        }
        assert(cs@.take(i + 1).drop_last() =~= cs@.take(i as int));
        assert(b@ =~= before + utf8_char(c));
        i = i + 1;
    }
    assert(cs@.take(cs@.len() as int) =~= cs@);
    b
}


// ── reading the text form ────────────────────────────────────────────────

pub open spec fn all_digits(s: Seq<char>) -> bool {
    forall|i: int| 0 <= i < s.len() ==> '0' <= #[trigger] s[i] <= '9'
}

pub open spec fn digits_val(s: Seq<char>) -> nat
    decreases s.len(),
{
    if s.len() == 0 {
        0
    } else {
        digits_val(s.drop_last()) * 10 + (s.last() as u32 - '0' as u32) as nat
    }
}

/// What `usize::from_str` accepts: an optional `+`, then one or more ASCII digits, the
/// value within `usize`.
pub open spec fn parse_usize(s: Seq<char>) -> Option<nat> {
    let d = if s.len() > 0 && s[0] == '+' {
        s.drop_first()
    } else {
        s
    };
    if d.len() == 0 || !all_digits(d) || digits_val(d) > usize::MAX {
        None
    } else {
        Some(digits_val(d))
    }
}

/// Index of the first line at or after `i` that is not blank.
pub open spec fn next_filled(ls: Seq<Seq<char>>, i: int) -> Option<int>
    decreases ls.len() - i,
{
    if i < 0 || i >= ls.len() {
        None
    } else if trim_ws(ls[i]).len() > 0 {
        Some(i)
    } else {
        next_filled(ls, i + 1)
    }
}

pub proof fn lemma_next_filled(ls: Seq<Seq<char>>, i: int)
    ensures
        next_filled(ls, i) matches Some(j) ==> i <= j < ls.len() && trim_ws(ls[j]).len() > 0,
    decreases ls.len() - i,
{
    if 0 <= i < ls.len() && trim_ws(ls[i]).len() == 0 {
        lemma_next_filled(ls, i + 1);
    }
}

/// The content between the quotes of a quoted line.
pub open spec fn quoted_content(l: Seq<char>) -> Option<Seq<char>> {
    if l.len() >= 2 && l[0] == '"' && l.last() == '"' {
        Some(l.subrange(1, l.len() - 1))
    } else {
        None
    }
}

/// The bytes a quoted line stands for.
pub open spec fn unquote(l: Seq<char>) -> Option<Seq<u8>> {
    match quoted_content(l) {
        Some(c) => unescape_from(utf8_of(c), 0),
        None => None,
    }
}

/// `k` array elements from line `i` on (blank lines skipped): trimmed numeric lines, or
/// quoted lines; and where reading stopped.
pub open spec fn read_elements(ls: Seq<Seq<char>>, i: int, k: nat, quoted: bool) -> Option<
    (Seq<ValueView>, int),
>
    decreases ls.len() - i,
{
    if k == 0 {
        Some((Seq::empty(), i))
    } else {
        match next_filled(ls, i) {
            None => None,
            Some(j) => {
                proof {
                    lemma_next_filled(ls, i);
                }
                let l = trim_ws(ls[j]);
                let e = if quoted {
                    match unquote(l) {
                        Some(b) => Some(ValueView::Str(b)),
                        None => None,
                    }
                } else {
                    Some(ValueView::Num(l))
                };
                match e {
                    None => None,
                    Some(x) => match read_elements(ls, j + 1, (k - 1) as nat, quoted) {
                        None => None,
                        Some((xs, end)) => Some((seq![x] + xs, end)),
                    },
                }
            },
        }
    }
}

pub proof fn lemma_read_elements_end(ls: Seq<Seq<char>>, i: int, k: nat, quoted: bool)
    ensures
        read_elements(ls, i, k, quoted) matches Some((xs, end)) ==> xs.len() == k && (k > 0 ==> i < end
            <= ls.len()) && (k == 0 ==> end == i) && end - i >= k,
    decreases ls.len() - i,
{
    lemma_next_filled(ls, i);
    if k > 0 {
        if let Some(j) = next_filled(ls, i) {
            lemma_read_elements_end(ls, j + 1, (k - 1) as nat, quoted);
        }
    }
}

pub open spec fn nums_of(xs: Seq<ValueView>) -> Seq<Seq<char>> {
    xs.map_values(|x: ValueView| x->Num_0)
}

pub open spec fn strs_of(xs: Seq<ValueView>) -> Seq<Seq<u8>> {
    xs.map_values(|x: ValueView| x->Str_0)
}

/// What the text has said so far: a declared count, a file name, the values.
pub struct Parsed {
    pub count: Option<nat>,
    pub filename: Option<Seq<char>>,
    pub values: Seq<ValueView>,
}

pub open spec fn starts_with(s: Seq<char>, p: Seq<char>) -> bool {
    p.len() <= s.len() && s.take(p.len() as int) == p
}

/// Index of the first `)` of `s`.
pub open spec fn first_paren(s: Seq<char>, i: int) -> Option<int>
    decreases s.len() - i,
{
    if i < 0 || i >= s.len() {
        None
    } else if s[i] == ')' {
        Some(i)
    } else {
        first_paren(s, i + 1)
    }
}

/// The header of a string array, `DIM $(<dim>)*<len>`: dimension and element length.
pub open spec fn string_array_header(l: Seq<char>) -> Option<(nat, nat)> {
    let rest = l.skip(6);
    match first_paren(rest, 0) {
        None => None,
        Some(p) => {
            let after = rest.skip(p + 1);
            if after.len() == 0 || after[0] != '*' {
                None
            } else {
                match (parse_usize(trim_ws(rest.take(p))), parse_usize(trim_ws(after.skip(1)))) {
                    (Some(d), Some(w)) => Some((d, w)),
                    _ => None,
                }
            }
        },
    }
}

/// The dimension of a numeric array header, `DIM (<dim>)`.
pub open spec fn numeric_array_header(l: Seq<char>) -> Option<nat> {
    let rest = l.skip(5);
    if rest.len() == 0 || rest.last() != ')' {
        None
    } else {
        parse_usize(trim_ws(rest.drop_last()))
    }
}

/// Reading lines from `i` on, after `st`.
pub open spec fn parse_lines(ls: Seq<Seq<char>>, i: int, st: Parsed) -> Option<Parsed>
    decreases ls.len() - i,
{
    if i < 0 || i >= ls.len() {
        Some(st)
    } else {
        let l = trim_ws(ls[i]);
        if l.len() == 0 {
            parse_lines(ls, i + 1, st)
        } else if starts_with(l, "; Count:"@) {
            match parse_usize(trim_ws(l.skip(8))) {
                None => None,
                Some(n) => parse_lines(ls, i + 1, Parsed { count: Some(n), ..st }),
            }
        } else if starts_with(l, "; Filename:"@) {
            let name = trim_ws(l.skip(11));
            parse_lines(
                ls,
                i + 1,
                if name.len() > 0 {
                    Parsed { filename: Some(name), ..st }
                } else {
                    st
                },
            )
        } else if l[0] == ';' {
            parse_lines(ls, i + 1, st)
        } else if starts_with(l, "DIM $("@) {
            match string_array_header(l) {
                None => None,
                Some((d, w)) => {
                    proof {
                        lemma_read_elements_end(ls, i + 1, d + 1, true);
                    }
                    match read_elements(ls, i + 1, d + 1, true) {
                        None => None,
                        Some((xs, end)) => parse_lines(
                            ls,
                            end,
                            Parsed { values: st.values.push(ValueView::StrArr(w, strs_of(xs))), ..st },
                        ),
                    }
                },
            }
        } else if starts_with(l, "DIM ("@) {
            match numeric_array_header(l) {
                None => None,
                Some(d) => {
                    proof {
                        lemma_read_elements_end(ls, i + 1, d + 1, false);
                    }
                    match read_elements(ls, i + 1, d + 1, false) {
                        None => None,
                        Some((xs, end)) => parse_lines(
                            ls,
                            end,
                            Parsed { values: st.values.push(ValueView::NumArr(nums_of(xs))), ..st },
                        ),
                    }
                },
            }
        } else if l[0] == '"' {
            match unquote(l) {
                None => None,
                Some(b) => parse_lines(ls, i + 1, Parsed { values: st.values.push(ValueView::Str(b)), ..st }),
            }
        } else {
            parse_lines(ls, i + 1, Parsed { values: st.values.push(ValueView::Num(l)), ..st })
        }
    }
}

/// Reading SDAV text: `None` for malformed text or a declared count that does not match.
pub open spec fn from_ascii_spec(text: Seq<char>) -> Option<Parsed> {
    match parse_lines(
        crate::detect::lines_spec(text),
        0,
        Parsed { count: None, filename: None, values: Seq::empty() },
    ) {
        None => None,
        Some(st) => match st.count {
            Some(n) => if n != st.values.len() {
                None
            } else {
                Some(st)
            },
            None => Some(st),
        },
    }
}


/// `s` read as a `usize` (see [`parse_usize`]).
pub fn parse_usize_chars(s: &Vec<char>) -> (r: Option<usize>)
    ensures
        match r {
            Some(v) => parse_usize(s@) == Some(v as nat),
            None => parse_usize(s@) is None,
        },
{
    let start: usize = if s.len() > 0 && s[0] == '+' {
        1
    } else {
        0
    };
    let ghost d = s@.skip(start as int);
    assert(start == 1 ==> d =~= s@.drop_first());
    assert(start == 0 ==> d =~= s@);
    if start == s.len() {
        return None;
    }
    let mut v: usize = 0;
    let mut k = start;
    while k < s.len()
        invariant
            start <= k <= s@.len(),
            start < s@.len(),
            d == s@.skip(start as int),
            d == (if s@.len() > 0 && s@[0] == '+' {
                s@.drop_first()
            } else {
                s@
            }),
            all_digits(s@.subrange(start as int, k as int)),
            v == digits_val(s@.subrange(start as int, k as int)),
        decreases s.len() - k,
    {
        let c = s[k];
        if !(c >= '0' && c <= '9') {
            assert(d[(k - start) as int] == c);
            return None;
        }
        let dv = (c as u32 - '0' as u32) as usize;
        assert(s@.subrange(start as int, k + 1).drop_last() =~= s@.subrange(start as int, k as int));
        if v > (usize::MAX - dv) / 10 {
            proof {
                assert(d.take((k + 1 - start) as int) =~= s@.subrange(start as int, k + 1));
                assert(v * 10 + dv > usize::MAX);
                if all_digits(d) {
                    lemma_digits_val_grows(d, (k + 1 - start) as int);
                }
            }
            return None;
        }
        v = v * 10 + dv;
        k = k + 1;
        assert(all_digits(s@.subrange(start as int, k as int)));
    }
    assert(s@.subrange(start as int, k as int) =~= d);
    Some(v)
}

/// The value of a digit run only grows as it gets longer.
proof fn lemma_digits_val_grows(d: Seq<char>, n: int)
    requires
        0 <= n <= d.len(),
        all_digits(d),
    ensures
        digits_val(d) >= digits_val(d.take(n)),
    decreases d.len() - n,
{
    if n < d.len() {
        lemma_digits_val_grows(d, n + 1);
        assert(d.take(n + 1).drop_last() =~= d.take(n));
    } else {
        assert(d.take(n) =~= d);
    }
}

/// `v[from..to]`, trimmed.
fn trimmed(v: &Vec<char>, from: usize, to: usize) -> (r: Vec<char>)
    requires
        from <= to <= v@.len(),
    ensures
        r@ == trim_ws(v@.subrange(from as int, to as int)),
{
    let part = crate::detect::sub_chars(v, from, to);
    let (a, b) = bcd::trim_bounds(&part);
    crate::detect::sub_chars(&part, a, b)
}

/// Index of the first `)` of `s` at or after `i`.
fn find_paren(s: &Vec<char>, i: usize) -> (r: Option<usize>)
    requires
        i <= s@.len(),
    ensures
        match r {
            Some(p) => first_paren(s@, i as int) == Some(p as int) && i <= p < s@.len(),
            None => first_paren(s@, i as int) is None,
        },
{
    let mut k = i;
    while k < s.len()
        invariant
            i <= k <= s@.len(),
            first_paren(s@, i as int) == first_paren(s@, k as int),
        decreases s.len() - k,
    {
        if s[k] == ')' {
            return Some(k);
        }
        k = k + 1;
    }
    None
}

proof fn lemma_first_paren_shift(s: Seq<char>, off: int, i: int)
    requires
        0 <= off <= s.len(),
        0 <= i,
    ensures
        first_paren(s.skip(off), i) == match first_paren(s, off + i) {
            Some(p) => Some(p - off),
            None => None::<int>,
        },
    decreases s.len() - off - i,
{
    if i < s.len() - off {
        assert(s.skip(off)[i] == s[off + i]);
        lemma_first_paren_shift(s, off, i + 1);
    }
}

/// The bytes a quoted line stands for.
fn unquote_line(l: &Vec<char>) -> (r: Option<Vec<u8>>)
    ensures
        match r {
            Some(b) => unquote(l@) == Some(b@),
            None => unquote(l@) is None,
        },
{
    let n = l.len();
    if n >= 2 && l[0] == '"' && l[n - 1] == '"' {
        let content = crate::detect::sub_chars(l, 1, n - 1);
        let bytes = utf8_bytes(content.as_slice());
        unescape_bytes(bytes.as_slice())
    } else {
        None
    }
}

/// The non-blank line at or after `i`.
fn next_filled_line(ls: &Vec<Vec<char>>, i: usize, Ghost(lines): Ghost<Seq<Seq<char>>>) -> (r: Option<usize>)
    requires
        ls@.len() == lines.len(),
        forall|j: int| 0 <= j < ls@.len() ==> (#[trigger] ls@[j])@ == lines[j],
        i <= lines.len(),
    ensures
        match r {
            Some(j) => next_filled(lines, i as int) == Some(j as int) && j < lines.len(),
            None => next_filled(lines, i as int) is None,
        },
{
    proof {
        lemma_next_filled(lines, i as int);
    }
    let mut k = i;
    while k < ls.len()
        invariant
            i <= k <= ls@.len() == lines.len(),
            forall|j: int| 0 <= j < ls@.len() ==> (#[trigger] ls@[j])@ == lines[j],
            next_filled(lines, i as int) == next_filled(lines, k as int),
            next_filled(lines, i as int) matches Some(j) ==> j < lines.len(),
        decreases ls.len() - k,
    {
        let (a, b) = bcd::trim_bounds(&ls[k]);
        assert(ls@[k as int]@ == lines[k as int]);
        if b > a {
            return Some(k);
        }
        k = k + 1;
    }
    None
}

/// `d + 1` array elements from line `i` on: numeric texts, or the bytes of quoted lines.
fn read_elements_exec(
    ls: &Vec<Vec<char>>,
    i: usize,
    d: usize,
    quoted: bool,
    Ghost(lines): Ghost<Seq<Seq<char>>>,
) -> (r: Option<(Vec<String>, Vec<Vec<u8>>, usize)>)
    requires
        ls@.len() == lines.len(),
        forall|j: int| 0 <= j < ls@.len() ==> (#[trigger] ls@[j])@ == lines[j],
        i <= lines.len(),
    ensures
        match r {
            Some((nums, strs, end)) => read_elements(lines, i as int, (d + 1) as nat, quoted) matches Some(
                (xs, e),
            ) && e == end && (quoted ==> byte_strings(strs@) == strs_of(xs)) && (!quoted ==> texts(nums@)
                == nums_of(xs)),
            None => read_elements(lines, i as int, (d + 1) as nat, quoted) is None,
        },
{
    proof {
        lemma_read_elements_end(lines, i as int, (d + 1) as nat, quoted);
    }
    if d >= ls.len() - i {
        return None;
    }
    let k_total = d + 1;
    let nls = ls.len();
    let mut nums: Vec<String> = Vec::new();
    let mut strs: Vec<Vec<u8>> = Vec::new();
    let ghost mut xs: Seq<ValueView> = Seq::empty();
    let mut pos = i;
    let mut k: usize = 0;
    while k < k_total
        invariant
            ls@.len() == lines.len(),
            forall|j: int| 0 <= j < ls@.len() ==> (#[trigger] ls@[j])@ == lines[j],
            i <= pos <= lines.len(),
            nls == ls@.len(),
            k <= k_total,
            k_total == d + 1,
            xs.len() == k,
            quoted ==> byte_strings(strs@) == strs_of(xs),
            !quoted ==> texts(nums@) == nums_of(xs),
            read_elements(lines, i as int, k_total as nat, quoted) == match read_elements(
                lines,
                pos as int,
                (k_total - k) as nat,
                quoted,
            ) {
                Some((ys, end)) => Some((xs + ys, end)),
                None => None::<(Seq<ValueView>, int)>,
            },
        decreases k_total - k,
    {
        proof {
            lemma_next_filled(lines, pos as int);
        }
        let j = match next_filled_line(ls, pos, Ghost(lines)) {
            Some(j) => j,
            None => {
                return None;
            },
        };
        let (a, b) = bcd::trim_bounds(&ls[j]);
        let l = crate::detect::sub_chars(&ls[j], a, b);
        assert(ls@[j as int]@ == lines[j as int]);
        let ghost x: ValueView;
        if quoted {
            match unquote_line(&l) {
                Some(bytes) => {
                    proof {
                        x = ValueView::Str(bytes@);
                    }
                    let ghost before = byte_strings(strs@);
                    strs.push(bytes);
                    assert(byte_strings(strs@) =~= before.push(x->Str_0));
                },
                None => {
                    return None;
                },
            }
        } else {
            let t = textbuf::string_of(l.as_slice());
            proof {
                x = ValueView::Num(t@);
            }
            let ghost before = texts(nums@);
            nums.push(t);
            assert(texts(nums@) =~= before.push(x->Num_0));
        }
        proof {
            let xs0 = xs;
            xs = xs.push(x);
            assert(strs_of(xs) =~= strs_of(xs0).push(x->Str_0));
            assert(nums_of(xs) =~= nums_of(xs0).push(x->Num_0));
            match read_elements(lines, j + 1, (k_total - k - 1) as nat, quoted) {
                Some((ys, end)) => {
                    assert(xs0 + (seq![x] + ys) =~= xs + ys);
                },
                None => {},
            }
        }
        pos = j + 1;
        k = k + 1;
    }
    assert(xs + Seq::<ValueView>::empty() =~= xs);
    Some((nums, strs, pos))
}

pub open spec fn opt_nat(o: Option<usize>) -> Option<nat> {
    match o {
        Some(n) => Some(n as nat),
        None => None,
    }
}

pub open spec fn initial() -> Parsed {
    Parsed { count: None, filename: None, values: Seq::empty() }
}

/// Parse SDAV text back into a file. Blank lines and other `;` comment lines are
/// skipped; a declared `; Count:` must match the number of values read.
#[verifier::rlimit(60)]
pub fn from_ascii(text: &str) -> (r: Result<VarFile, VarError>)
    ensures
        match r {
            Ok(f) => from_ascii_spec(text@) matches Some(st) && opt_text(f.filename) == st.filename
                && value_views(f.values@) == st.values,
            Err(_) => from_ascii_spec(text@) is None,
        },
{
    let chars = textbuf::chars_of(text);
    let ls = crate::detect::split_lines(&chars);
    let ghost lines = crate::detect::lines_spec(text@);
    let nls = ls.len();
    let mut count: Option<usize> = None;
    let mut filename: Option<String> = None;
    let mut values: Vec<VarValue> = Vec::new();
    let count_p: [char; 8] = [';', ' ', 'C', 'o', 'u', 'n', 't', ':'];
    let name_p: [char; 11] = [';', ' ', 'F', 'i', 'l', 'e', 'n', 'a', 'm', 'e', ':'];
    let sarr_p: [char; 6] = ['D', 'I', 'M', ' ', '$', '('];
    let narr_p: [char; 5] = ['D', 'I', 'M', ' ', '('];
    proof {
        reveal_strlit("; Count:");
        reveal_strlit("; Filename:");
        reveal_strlit("DIM $(");
        reveal_strlit("DIM (");
        assert(count_p@ =~= "; Count:"@);
        assert(name_p@ =~= "; Filename:"@);
        assert(sarr_p@ =~= "DIM $("@);
        assert(narr_p@ =~= "DIM ("@);
    }
    let mut i: usize = 0;
    assert(value_views(values@) =~= Seq::<ValueView>::empty());
    while i < nls
        invariant
            nls == ls@.len() == lines.len(),
            lines == crate::detect::lines_spec(text@),
            forall|j: int| 0 <= j < ls@.len() ==> (#[trigger] ls@[j])@ == lines[j],
            i <= nls,
            count_p@ == "; Count:"@,
            name_p@ == "; Filename:"@,
            sarr_p@ == "DIM $("@,
            narr_p@ == "DIM ("@,
            parse_lines(lines, 0, initial()) == parse_lines(
                lines,
                i as int,
                Parsed { count: opt_nat(count), filename: opt_text(filename), values: value_views(values@) },
            ),
        decreases nls - i,
    {
        let ghost st = Parsed {
            count: opt_nat(count),
            filename: opt_text(filename),
            values: value_views(values@),
        };
        let l = trimmed(&ls[i], 0, ls[i].len());
        assert(ls@[i as int]@.subrange(0, ls@[i as int]@.len() as int) =~= lines[i as int]);
        let n = l.len();
        if n == 0 {
            i = i + 1;
        } else if crate::detect::chars_start_with(&l, count_p.as_slice()) {
            let t = trimmed(&l, 8, n);
            assert(l@.subrange(8, n as int) =~= l@.skip(8));
            match parse_usize_chars(&t) {
                Some(c) => {
                    count = Some(c);
                    i = i + 1;
                },
                None => {
                    return Err(VarError::Syntax(String::from_str("bad Count line")));
                },
            }
        } else if crate::detect::chars_start_with(&l, name_p.as_slice()) {
            let t = trimmed(&l, 11, n);
            assert(l@.subrange(11, n as int) =~= l@.skip(11));
            if t.len() > 0 {
                filename = Some(textbuf::string_of(t.as_slice()));
            }
            i = i + 1;
        } else if l[0] == ';' {
            i = i + 1;
        } else if crate::detect::chars_start_with(&l, sarr_p.as_slice()) {
            let ghost rest = l@.skip(6);
            let p = match find_paren(&l, 6) {
                Some(p) => p,
                None => {
                    proof {
                        lemma_first_paren_shift(l@, 6, 0);
                    }
                    return Err(VarError::Syntax(String::from_str("malformed string array header")));
                },
            };
            proof {
                lemma_first_paren_shift(l@, 6, 0);
                assert(rest.skip(p - 6 + 1) =~= l@.skip(p + 1));
            }
            if p + 1 >= n || l[p + 1] != '*' {
                return Err(VarError::Syntax(String::from_str("malformed string array header")));
            }
            let dim_t = trimmed(&l, 6, p);
            let len_t = trimmed(&l, p + 2, n);
            assert(rest.take(p - 6) =~= l@.subrange(6, p as int));
            assert(rest.skip(p - 6 + 1).skip(1) =~= l@.subrange(p + 2, n as int));
            let d = match parse_usize_chars(&dim_t) {
                Some(d) => d,
                None => {
                    return Err(VarError::Syntax(String::from_str("bad dimension")));
                },
            };
            let w = match parse_usize_chars(&len_t) {
                Some(w) => w,
                None => {
                    return Err(VarError::Syntax(String::from_str("bad element length")));
                },
            };
            proof {
                lemma_read_elements_end(lines, i + 1, (d + 1) as nat, true);
            }
            match read_elements_exec(&ls, i + 1, d, true, Ghost(lines)) {
                Some((_, strs, end)) => {
                    let ghost before = value_views(values@);
                    values.push(VarValue::StringArray { max_len: w, elements: strs });
                    assert(value_views(values@) =~= before.push(values@.last()@));
                    i = end;
                },
                None => {
                    return Err(VarError::Syntax(String::from_str("unexpected end of input while reading an array")));
                },
            }
        } else if crate::detect::chars_start_with(&l, narr_p.as_slice()) {
            if n == 5 || l[n - 1] != ')' {
                return Err(VarError::Syntax(String::from_str("malformed numeric array header")));
            }
            let dim_t = trimmed(&l, 5, n - 1);
            assert(l@.skip(5).drop_last() =~= l@.subrange(5, n - 1));
            let d = match parse_usize_chars(&dim_t) {
                Some(d) => d,
                None => {
                    return Err(VarError::Syntax(String::from_str("bad dimension")));
                },
            };
            proof {
                lemma_read_elements_end(lines, i + 1, (d + 1) as nat, false);
            }
            match read_elements_exec(&ls, i + 1, d, false, Ghost(lines)) {
                Some((nums, _, end)) => {
                    let ghost before = value_views(values@);
                    values.push(VarValue::NumericArray(nums));
                    assert(value_views(values@) =~= before.push(values@.last()@));
                    i = end;
                },
                None => {
                    return Err(VarError::Syntax(String::from_str("unexpected end of input while reading an array")));
                },
            }
        } else if l[0] == '"' {
            match unquote_line(&l) {
                Some(b) => {
                    let ghost before = value_views(values@);
                    values.push(VarValue::StringScalar(b));
                    assert(value_views(values@) =~= before.push(values@.last()@));
                    i = i + 1;
                },
                None => {
                    return Err(VarError::Syntax(String::from_str("unterminated quoted string or bad escape")));
                },
            }
        } else {
            let ghost before = value_views(values@);
            values.push(VarValue::NumericScalar(textbuf::string_of(l.as_slice())));
            assert(value_views(values@) =~= before.push(values@.last()@));
            i = i + 1;
        }
    }
    match count {
        Some(c) => {
            if c != values.len() {
                return Err(VarError::Syntax(String::from_str("declared Count does not match the values read")));
            }
        },
        None => {},
    }
    Ok(VarFile { filename, values })
}

} // verus!
