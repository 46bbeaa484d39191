//! ROM-style BASIC tokenizer: ASCII listing text -> tokenized payload bytes (no header).
//!
//! Single left-to-right pass per line, modelled on the PC-1500 ROM tokenizer rather than a
//! grammar:
//!
//! 1. `'` (0x27) is a `REM` shorthand: it is kept, and everything after it on the line is
//!    copied through verbatim.
//! 2. `"` toggles verbatim string mode; inside a string every byte (spaces included) is
//!    copied through.
//! 3. Spaces outside strings are dropped.
//! 4. A byte `>= 0xE0` is the lead of an already-tokenized 2-byte keyword and is copied
//!    through with the following byte.
//! 5. `A..=Z` starts a greedy longest keyword match against the registry. A hit emits
//!    the 2-byte token; a miss stores the single letter and rescans from the next
//!    character. Right after `REM` the rest of the line is copied verbatim.
//! 6. Everything else is stored as its CP437 byte.
//!
//! On the PC-1600, a constant line-number target right after `GOTO`, `GOSUB`, `THEN`,
//! `RESUME`, `RUN` or `RESTORE` is stored as `1F hi lo 00` instead of ASCII digits.
//!
//! The text is first encoded as CP437 (characters outside the set become `?`); every
//! character that shapes a line (newline, blanks, digits, `#`, `/`) is ASCII, so the
//! rules below are stated over those bytes.

use vstd::prelude::*;

use crate::cp437;
use crate::registry::{is_prefix, longest_among, longest_spec, Device, KeywordView, Registry, REM_CODE};
use crate::textbuf;

verus! {

/// How a `#SEGMENT` marker line is rendered into bytes: `FF 00 00` on the wire (what a
/// device's serial `SAVE` sends), or just `FF` (what its receiver stores in RAM).
#[derive(Clone, Copy, Debug, PartialEq, Eq, Structural)]
pub enum SegmentMarker {
    Wire,
    Memory,
}

/// Largest tokenized line body: the length byte also counts the trailing `0D`.
pub const MAX_CONTENT: usize = 254;

/// Why a listing does not tokenize.
#[derive(Clone, Debug, PartialEq, Eq)]
pub enum TokenizeError {
    /// A line's tokenized body is longer than [`MAX_CONTENT`] bytes.
    LineTooLong { line_no: u16, len: usize },
}

impl TokenizeError {
    /// The error as a line of text.
    pub open spec fn message_text(self) -> Seq<char> {
        match self {
            TokenizeError::LineTooLong { line_no, len } => "line "@ + crate::textbuf::decimal(line_no as nat) + " is too long: "@ + crate::textbuf::decimal(
                len as nat,
            ) + " tokenized bytes (max 254)"@,
        }
    }

    pub fn message(&self) -> (s: String)
        ensures
            s@ == self.message_text(),
    {
        let mut s = String::new();
        match self {
            TokenizeError::LineTooLong { line_no, len } => {
                textbuf::push_str(&mut s, "line ");
                textbuf::push_decimal(&mut s, *line_no as u64);
                textbuf::push_str(&mut s, " is too long: ");
                textbuf::push_decimal(&mut s, *len as u64);
                textbuf::push_str(&mut s, " tokenized bytes (max 254)");
            },
        }
        s
    }
}

pub open spec fn is_blank(b: u8) -> bool {
    b == 0x20 || b == 0x09 || b == 0x0D
}

pub open spec fn is_digit(b: u8) -> bool {
    0x30 <= b <= 0x39
}

pub open spec fn trim_start(l: Seq<u8>) -> Seq<u8>
    decreases l.len(),
{
    if l.len() > 0 && is_blank(l[0]) {
        trim_start(l.drop_first())
    } else {
        l
    }
}

pub open spec fn trim_end(l: Seq<u8>) -> Seq<u8>
    decreases l.len(),
{
    if l.len() > 0 && is_blank(l.last()) {
        trim_end(l.drop_last())
    } else {
        l
    }
}

/// Number of leading ASCII digits.
pub open spec fn digit_count(l: Seq<u8>) -> nat
    decreases l.len(),
{
    if l.len() > 0 && is_digit(l[0]) {
        1 + digit_count(l.drop_first())
    } else {
        0
    }
}

/// The value of a run of ASCII digits.
pub open spec fn digits_value(ds: Seq<u8>) -> nat
    decreases ds.len(),
{
    if ds.len() == 0 {
        0
    } else {
        digits_value(ds.drop_last()) * 10 + (ds.last() - 0x30) as nat
    }
}

/// A line number: the digits' value as a 64-bit number (0 when it does not fit), cut to
/// 16 bits.
pub open spec fn line_number(ds: Seq<u8>) -> u16 {
    if digits_value(ds) > u64::MAX {
        0
    } else {
        (digits_value(ds) % 65536) as u16
    }
}

/// Consecutive digits from `i`, at most `k` of them.
pub open spec fn digit_run(b: Seq<u8>, i: int, k: nat) -> nat
    decreases k,
{
    if k == 0 || i < 0 || i >= b.len() || !is_digit(b[i]) {
        0
    } else {
        1 + digit_run(b, i + 1, (k - 1) as nat)
    }
}

pub open spec fn segment_line() -> Seq<u8> {
    seq![0x23u8, 0x53, 0x45, 0x47, 0x4D, 0x45, 0x4E, 0x54]
}

pub open spec fn nines_line() -> Seq<u8> {
    seq![0x39u8, 0x39, 0x39, 0x39, 0x39]
}

pub open spec fn marker_bytes(m: SegmentMarker) -> Seq<u8> {
    match m {
        SegmentMarker::Wire => seq![0xFFu8, 0x00, 0x00],
        SegmentMarker::Memory => seq![0xFFu8],
    }
}

/// Keywords followed by a line-number target: GOTO GOSUB THEN RESUME RUN RESTORE.
pub open spec fn takes_target(name: Seq<u8>) -> bool {
    ||| name == seq![0x47u8, 0x4F, 0x54, 0x4F]
    ||| name == seq![0x47u8, 0x4F, 0x53, 0x55, 0x42]
    ||| name == seq![0x54u8, 0x48, 0x45, 0x4E]
    ||| name == seq![0x52u8, 0x45, 0x53, 0x55, 0x4D, 0x45]
    ||| name == seq![0x52u8, 0x55, 0x4E]
    ||| name == seq![0x52u8, 0x45, 0x53, 0x54, 0x4F, 0x52, 0x45]
}

pub open spec fn be16_bytes(v: u16) -> Seq<u8> {
    seq![(v / 256) as u8, (v % 256) as u8]
}

/// The tokenized bytes of a line body from `i` on, inside a string or not, right after a
/// target-taking keyword or not; `bin` selects PC-1600 binary line-number targets.
pub open spec fn scan_from(
    b: Seq<u8>,
    i: int,
    in_string: bool,
    expect: bool,
    bin: bool,
    kws: Seq<KeywordView>,
) -> Seq<u8>
    decreases b.len() - i,
{
    if i < 0 || i >= b.len() {
        Seq::empty()
    } else {
        let c = b[i];
        if in_string {
            seq![c] + scan_from(b, i + 1, c != 0x22, expect, bin, kws)
        } else if c == 0x20 {
            scan_from(b, i + 1, false, expect, bin, kws)
        } else if bin && expect && is_digit(c) {
            let n = digit_run(b, i, 5);
            proof {
                lemma_digit_run(b, i, 5);
            }
            let v = digits_value(b.subrange(i, i + n));
            if v <= 0xFFFF {
                seq![0x1Fu8] + be16_bytes(v as u16) + seq![0x00u8] + scan_from(
                    b,
                    i + n,
                    false,
                    false,
                    bin,
                    kws,
                )
            } else {
                b.subrange(i, i + n) + scan_from(b, i + n, false, false, bin, kws)
            }
        } else if c == 0x27 {
            b.subrange(i, b.len() as int)
        } else if c == 0x22 {
            seq![c] + scan_from(b, i + 1, true, false, bin, kws)
        } else if c >= 0xE0 {
            if i + 1 < b.len() {
                seq![c, b[i + 1]] + scan_from(b, i + 2, false, false, bin, kws)
            } else {
                seq![c]
            }
        } else if 0x41 <= c <= 0x5A {
            match longest_spec(kws, b.skip(i)) {
                Some(k) => {
                    proof {
                        lemma_longest_is_prefix(kws, b.skip(i), kws.len() as int);
                    }
                    let kw = kws[k];
                    if kw.name.len() == 0 {
                        seq![c] + scan_from(b, i + 1, false, false, bin, kws)
                    } else if kw.code == REM_CODE {
                        be16_bytes(kw.code) + b.subrange(i + kw.name.len(), b.len() as int)
                    } else {
                        be16_bytes(kw.code) + scan_from(
                            b,
                            i + kw.name.len(),
                            false,
                            takes_target(kw.name),
                            bin,
                            kws,
                        )
                    }
                },
                None => seq![c] + scan_from(b, i + 1, false, false, bin, kws),
            }
        } else {
            seq![c] + scan_from(b, i + 1, false, false, bin, kws)
        }
    }
}

/// The tokenized body of a line after its number.
pub open spec fn scan_spec(rest: Seq<u8>, bin: bool, kws: Seq<KeywordView>) -> Seq<u8> {
    scan_from(rest, 0, false, false, bin, kws)
}

/// One listing line, tokenized: a segment marker, nothing (comment, blank or unnumbered
/// line), or `line number (BE) + length + body + 0D`; or the line number and body length
/// of a line that is too long.
pub open spec fn tok_line(line: Seq<u8>, bin: bool, kws: Seq<KeywordView>, m: SegmentMarker) -> Result<
    Seq<u8>,
    (u16, int),
> {
    let l = trim_start(line);
    let t = trim_end(l);
    if t == segment_line() || t == nines_line() {
        Ok(marker_bytes(m))
    } else if (l.len() >= 2 && l[0] == 0x2F && l[1] == 0x2F) || (l.len() >= 1 && l[0] == 0x23) {
        Ok(Seq::empty())
    } else {
        let nd = digit_count(l);
        if nd == 0 {
            Ok(Seq::empty())
        } else {
            let n = line_number(l.take(nd as int));
            let c = scan_spec(l.skip(nd as int), bin, kws);
            if c.len() > 254 {
                Err((n, c.len() as int))
            } else {
                Ok(be16_bytes(n) + seq![(c.len() + 1) as u8] + c + seq![0x0Du8])
            }
        }
    }
}

/// Tokenizing the listing `b` from the line starting at `start`, now at `i`.
pub open spec fn tok_from(b: Seq<u8>, start: int, i: int, bin: bool, kws: Seq<KeywordView>, m: SegmentMarker) -> Result<
    Seq<u8>,
    (u16, int),
>
    decreases b.len() - i,
{
    if i >= b.len() || i < start || start < 0 {
        tok_line(b.subrange(start, b.len() as int), bin, kws, m)
    } else if b[i] == 0x0A {
        match tok_line(b.subrange(start, i), bin, kws, m) {
            Err(e) => Err(e),
            Ok(o) => match tok_from(b, i + 1, i + 1, bin, kws, m) {
                Err(e) => Err(e),
                Ok(r) => Ok(o + r),
            },
        }
    } else {
        tok_from(b, start, i + 1, bin, kws, m)
    }
}

/// Tokenizing a whole listing given as CP437 bytes.
pub open spec fn tokenize_spec(b: Seq<u8>, bin: bool, kws: Seq<KeywordView>, m: SegmentMarker) -> Result<
    Seq<u8>,
    (u16, int),
> {
    tok_from(b, 0, 0, bin, kws, m)
}

pub open spec fn prepend(p: Seq<u8>, r: Result<Seq<u8>, (u16, int)>) -> Result<Seq<u8>, (u16, int)> {
    match r {
        Ok(s) => Ok(p + s),
        Err(e) => Err(e),
    }
}

/// Tokenize a full ASCII BASIC listing (dotted abbreviations already expanded). Lines
/// may end in `\n` or `\r\n`. `marker` selects how a `#SEGMENT` line (or its alias, a
/// bare `99999` line) is rendered. Fails only on a line whose body is too long.
pub fn tokenize(source: &str, reg: &Registry, marker: SegmentMarker) -> (r: Result<Vec<u8>, TokenizeError>)
    requires
        reg.wf(),
    ensures
        match r {
            Ok(v) => tokenize_spec(
                cp437::encode_lossy_seq(source@),
                reg.spec_device() == Device::Pc1600,
                reg.spec_keywords(),
                marker,
            ) == Ok::<Seq<u8>, (u16, int)>(v@),
            Err(TokenizeError::LineTooLong { line_no, len }) => tokenize_spec(
                cp437::encode_lossy_seq(source@),
                reg.spec_device() == Device::Pc1600,
                reg.spec_keywords(),
                marker,
            ) == Err::<Seq<u8>, (u16, int)>((line_no, len as int)),
        },
{
    let b = cp437::encode_lossy(source);
    tokenize_bytes(b.as_slice(), reg, marker)
}

/// [`tokenize`] on the listing's CP437 bytes.
pub fn tokenize_bytes(b: &[u8], reg: &Registry, marker: SegmentMarker) -> (r: Result<Vec<u8>, TokenizeError>)
    requires
        reg.wf(),
    ensures
        match r {
            Ok(v) => tokenize_spec(b@, reg.spec_device() == Device::Pc1600, reg.spec_keywords(), marker)
                == Ok::<Seq<u8>, (u16, int)>(v@),
            Err(TokenizeError::LineTooLong { line_no, len }) => tokenize_spec(
                b@,
                reg.spec_device() == Device::Pc1600,
                reg.spec_keywords(),
                marker,
            ) == Err::<Seq<u8>, (u16, int)>((line_no, len as int)),
        },
{
    let ghost bin = reg.spec_device() == Device::Pc1600;
    let ghost kws = reg.spec_keywords();
    let mut out: Vec<u8> = Vec::new();
    let mut start: usize = 0;
    let mut i: usize = 0;
    while i < b.len()
        invariant
            reg.wf(),
            bin == (reg.spec_device() == Device::Pc1600),
            kws == reg.spec_keywords(),
            start <= i <= b@.len(),
            tokenize_spec(b@, bin, kws, marker) == prepend(out@, tok_from(b@, start as int, i as int, bin, kws, marker)),
        decreases b.len() - i,
    {
        if b[i] == 0x0A {
            let line = vstd::slice::slice_subrange(b, start, i);
            match tok_line_exec(line, reg, marker) {
                Ok(o) => {
                    let ghost before = out@;
                    let mut k: usize = 0;
                    while k < o.len()
                        invariant
                            k <= o@.len(),
                            out@ == before + o@.take(k as int),
                        decreases o.len() - k,
                    {
                        out.push(o[k]);
                        k = k + 1;
                        assert(out@ =~= before + o@.take(k as int));
                    }
                    assert(o@.take(o@.len() as int) =~= o@);
                    proof {
                        let r = tok_from(b@, i + 1, i + 1, bin, kws, marker);
                        match r {
                            Ok(s) => assert(before + (o@ + s) =~= out@ + s),
                            Err(_) => {},
                        }
                    }
                },
                Err(e) => {
                    return Err(e);
                },
            }
            i = i + 1;
            start = i;
        } else {
            i = i + 1;
        }
    }
    let line = vstd::slice::slice_subrange(b, start, b.len());
    match tok_line_exec(line, reg, marker) {
        Ok(o) => {
            let ghost before = out@;
            let mut k: usize = 0;
            while k < o.len()
                invariant
                    k <= o@.len(),
                    out@ == before + o@.take(k as int),
                decreases o.len() - k,
            {
                out.push(o[k]);
                k = k + 1;
                assert(out@ =~= before + o@.take(k as int));
            }
            assert(o@.take(o@.len() as int) =~= o@);
            Ok(out)
        },
        Err(e) => Err(e),
    }
}

/// Skip leading blanks: index of the first non-blank byte at or after `from`.
fn skip_blanks(l: &[u8], from: usize) -> (r: usize)
    requires
        from <= l@.len(),
    ensures
        from <= r <= l@.len(),
        trim_start(l@.skip(from as int)) == l@.skip(r as int),
{
    let mut k = from;
    while k < l.len() && (l[k] == 0x20 || l[k] == 0x09 || l[k] == 0x0D)
        invariant
            from <= k <= l@.len(),
            trim_start(l@.skip(from as int)) == trim_start(l@.skip(k as int)),
        decreases l.len() - k,
    {
        assert(l@.skip(k as int).drop_first() =~= l@.skip(k + 1));
        k = k + 1;
    }
    k
}

/// End of `l[from..to]` without its trailing blanks.
fn trim_blanks_end(l: &[u8], from: usize, to: usize) -> (r: usize)
    requires
        from <= to <= l@.len(),
    ensures
        from <= r <= to,
        trim_end(l@.subrange(from as int, to as int)) == l@.subrange(from as int, r as int),
{
    let mut k = to;
    while k > from && (l[k - 1] == 0x20 || l[k - 1] == 0x09 || l[k - 1] == 0x0D)
        invariant
            from <= k <= to <= l@.len(),
            trim_end(l@.subrange(from as int, to as int)) == trim_end(l@.subrange(from as int, k as int)),
        decreases k - from,
    {
        assert(l@.subrange(from as int, k as int).drop_last() =~= l@.subrange(from as int, k - 1));
        k = k - 1;
    }
    k
}

/// `l[from..to]` is exactly `lit`.
fn range_is(l: &[u8], from: usize, to: usize, lit: &[u8]) -> (r: bool)
    requires
        from <= to <= l@.len(),
    ensures
        r == (l@.subrange(from as int, to as int) == lit@),
{
    if to - from != lit.len() {
        return false;
    }
    let mut k: usize = 0;
    while k < lit.len()
        invariant
            k <= lit@.len(),
            to - from == lit@.len(),
            from <= to <= l@.len(),
            forall|j: int| 0 <= j < k ==> l@[from + j] == lit@[j],
        decreases lit.len() - k,
    {
        if l[from + k] != lit[k] {
            assert(l@.subrange(from as int, to as int)[k as int] != lit@[k as int]);
            return false;
        }
        k = k + 1;
    }
    assert(l@.subrange(from as int, to as int) =~= lit@);
    true
}

proof fn lemma_digit_count_skip(l: Seq<u8>, k: int)
    requires
        0 <= k <= l.len(),
        forall|j: int| 0 <= j < k ==> is_digit(#[trigger] l[j]),
    ensures
        digit_count(l) == k + digit_count(l.skip(k)),
    decreases k,
{
    if k > 0 {
        assert(is_digit(l[0]));
        assert(l.drop_first().skip(k - 1) =~= l.skip(k));
        assert forall|j: int| 0 <= j < k - 1 implies is_digit(#[trigger] l.drop_first()[j]) by {
            assert(l.drop_first()[j] == l[j + 1]);
        }
        lemma_digit_count_skip(l.drop_first(), k - 1);
    } else {
        assert(l.skip(0) =~= l);
    }
}

proof fn lemma_digits_value_grows(ds: Seq<u8>)
    requires
        ds.len() > 0,
    ensures
        digits_value(ds) >= digits_value(ds.drop_last()),
{
}

/// Tokenize one line.
fn tok_line_exec(line: &[u8], reg: &Registry, marker: SegmentMarker) -> (r: Result<Vec<u8>, TokenizeError>)
    requires
        reg.wf(),
    ensures
        match r {
            Ok(v) => tok_line(line@, reg.spec_device() == Device::Pc1600, reg.spec_keywords(), marker)
                == Ok::<Seq<u8>, (u16, int)>(v@),
            Err(TokenizeError::LineTooLong { line_no, len }) => tok_line(
                line@,
                reg.spec_device() == Device::Pc1600,
                reg.spec_keywords(),
                marker,
            ) == Err::<Seq<u8>, (u16, int)>((line_no, len as int)),
        },
{
    let ghost bin = reg.spec_device() == Device::Pc1600;
    let ghost kws = reg.spec_keywords();
    assert(line@.skip(0) =~= line@);
    let s0 = skip_blanks(line, 0);
    let ghost l = line@.skip(s0 as int);
    let te = trim_blanks_end(line, s0, line.len());
    assert(line@.subrange(s0 as int, line@.len() as int) =~= l);
    if is_marker_line(line, s0, te) {
        return Ok(marker_vec(marker));
    }
    let n = line.len();
    if (n - s0 >= 2 && line[s0] == 0x2F && line[s0 + 1] == 0x2F) || (s0 < n && line[s0] == 0x23) {
        return Ok(Vec::new());
    }
    let (k, line_no) = line_number_at(line, s0);
    if k == s0 {
        return Ok(Vec::new());
    }
    let rest = vstd::slice::slice_subrange(line, k, n);
    assert(rest@ =~= l.skip((k - s0) as int));
    let content = scan_line(rest, reg);
    if content.len() > MAX_CONTENT {
        return Err(TokenizeError::LineTooLong { line_no, len: content.len() });
    }
    Ok(frame_line(line_no, &content))
}

/// `l[from..to]` is a segment-marker line.
fn is_marker_line(l: &[u8], from: usize, to: usize) -> (r: bool)
    requires
        from <= to <= l@.len(),
    ensures
        r == (l@.subrange(from as int, to as int) == segment_line() || l@.subrange(from as int, to as int)
            == nines_line()),
{
    let seg: [u8; 8] = [0x23, 0x53, 0x45, 0x47, 0x4D, 0x45, 0x4E, 0x54];
    let nines: [u8; 5] = [0x39, 0x39, 0x39, 0x39, 0x39];
    assert(seg@ =~= segment_line());
    assert(nines@ =~= nines_line());
    range_is(l, from, to, seg.as_slice()) || range_is(l, from, to, nines.as_slice())
}

fn marker_vec(m: SegmentMarker) -> (v: Vec<u8>)
    ensures
        v@ == marker_bytes(m),
{
    let mut v: Vec<u8> = Vec::new();
    match m {
        SegmentMarker::Wire => {
            v.push(0xFF);
            v.push(0x00);
            v.push(0x00);
        },
        SegmentMarker::Memory => {
            v.push(0xFF);
        },
    }
    assert(v@ =~= marker_bytes(m));
    v
}

/// `line number (BE) + length + content + 0D`.
fn frame_line(line_no: u16, content: &Vec<u8>) -> (out: Vec<u8>)
    requires
        content@.len() <= 254,
    ensures
        out@ == be16_bytes(line_no) + seq![(content@.len() + 1) as u8] + content@ + seq![0x0Du8],
{
    let mut out: Vec<u8> = Vec::new();
    out.push((line_no / 256) as u8);
    out.push((line_no % 256) as u8);
    out.push((content.len() + 1) as u8);
    let ghost head = out@;
    let mut j: usize = 0;
    while j < content.len()
        invariant
            j <= content@.len(),
            out@ == head + content@.take(j as int),
        decreases content.len() - j,
    {
        out.push(content[j]);
        j = j + 1;
        assert(out@ =~= head + content@.take(j as int));
    }
    out.push(0x0D);
    assert(content@.take(content@.len() as int) =~= content@);
    assert(out@ =~= be16_bytes(line_no) + seq![(content@.len() + 1) as u8] + content@ + seq![0x0Du8]);
    out
}

/// The line number starting at `s0`: where its digits end, and its value.
fn line_number_at(line: &[u8], s0: usize) -> (r: (usize, u16))
    requires
        s0 <= line@.len(),
    ensures
        s0 <= r.0 <= line@.len(),
        r.0 - s0 == digit_count(line@.skip(s0 as int)),
        line@.skip(s0 as int).take((r.0 - s0) as int) == line@.subrange(s0 as int, r.0 as int),
        line@.skip(s0 as int).skip((r.0 - s0) as int) == line@.skip(r.0 as int),
        r.1 == line_number(line@.subrange(s0 as int, r.0 as int)),
{
    let ghost l = line@.skip(s0 as int);
    let n = line.len();
    let mut k = s0;
    let mut value: u64 = 0;
    let mut over = false;
    while k < n && line[k] >= 0x30 && line[k] <= 0x39
        invariant
            s0 <= k <= n == line@.len(),
            forall|j: int| s0 <= j < k ==> is_digit(#[trigger] line@[j]),
            over ==> digits_value(line@.subrange(s0 as int, k as int)) > u64::MAX,
            !over ==> value == digits_value(line@.subrange(s0 as int, k as int)),
        decreases n - k,
    {
        let d = (line[k] - 0x30) as u64;
        let ghost p = line@.subrange(s0 as int, k as int);
        let ghost q = line@.subrange(s0 as int, k + 1);
        assert(q.drop_last() =~= p);
        if !over {
            if value > (u64::MAX - d) / 10 {
                over = true;
            } else {
                value = value * 10 + d;
            }
        }
        k = k + 1;
    }
    let nd = k - s0;
    proof {
        assert forall|j: int| 0 <= j < nd implies is_digit(#[trigger] l[j]) by {
            assert(l[j] == line@[s0 + j]);
        }
        lemma_digit_count_skip(l, nd as int);
        assert(l.skip(nd as int) =~= line@.skip(k as int));
        if k < n {
            assert(l.skip(nd as int)[0] == line@[k as int]);
        }
        assert(l.take(nd as int) =~= line@.subrange(s0 as int, k as int));
    }
    let line_no: u16 = if over {
        0
    } else {
        (value % 65536) as u16
    };
    (k, line_no)
}

/// Tokenize a line body (what follows the line number).
pub fn scan_line(rest: &[u8], reg: &Registry) -> (out: Vec<u8>)
    requires
        reg.wf(),
    ensures
        out@ == scan_spec(rest@, reg.spec_device() == Device::Pc1600, reg.spec_keywords()),
{
    let ghost kws = reg.spec_keywords();
    let bin = reg.device() == Device::Pc1600;
    let n = rest.len();
    let mut content: Vec<u8> = Vec::new();
    let mut i: usize = 0;
    let mut in_string = false;
    let mut expect = false;
    while i < n
        invariant
            reg.wf(),
            kws == reg.spec_keywords(),
            bin == (reg.spec_device() == Device::Pc1600),
            n == rest@.len(),
            i <= n,
            content@ + scan_from(rest@, i as int, in_string, expect, bin, kws) == scan_spec(rest@, bin, kws),
        decreases n - i,
    {
        let ghost before = content@;
        let ghost i0 = i as int;
        let ghost ins0 = in_string;
        let ghost exp0 = expect;
        let (j, s2, e2) = scan_step(rest, reg, bin, i, in_string, expect, &mut content);
        i = j;
        in_string = s2;
        expect = e2;
        assert(before + scan_from(rest@, i0, ins0, exp0, bin, kws) =~= content@ + scan_from(
            rest@,
            i as int,
            in_string,
            expect,
            bin,
            kws,
        ));
    }
    assert(content@ + scan_from(rest@, i as int, in_string, expect, bin, kws) =~= content@);
    content
}

/// Append `rest[from..to]` to `out`.
fn push_range(out: &mut Vec<u8>, rest: &[u8], from: usize, to: usize)
    requires
        from <= to <= rest@.len(),
    ensures
        final(out)@ == old(out)@ + rest@.subrange(from as int, to as int),
{
    let ghost before = out@;
    let mut j = from;
    while j < to
        invariant
            from <= j <= to <= rest@.len(),
            out@ == before + rest@.subrange(from as int, j as int),
        decreases to - j,
    {
        out.push(rest[j]);
        j = j + 1;
        assert(out@ =~= before + rest@.subrange(from as int, j as int));
    }
}

/// One step of the scan from `i`: what it appends, and where the scan goes on.
#[verifier::spinoff_prover]
#[verifier::rlimit(80)]
fn scan_step(
    rest: &[u8],
    reg: &Registry,
    bin: bool,
    i: usize,
    in_string: bool,
    expect: bool,
    content: &mut Vec<u8>,
) -> (r: (usize, bool, bool))
    requires
        reg.wf(),
        bin == (reg.spec_device() == Device::Pc1600),
        i < rest@.len(),
    ensures
        i < r.0 <= rest@.len(),
        old(content)@ + scan_from(rest@, i as int, in_string, expect, bin, reg.spec_keywords())
            == final(content)@ + scan_from(rest@, r.0 as int, r.1, r.2, bin, reg.spec_keywords()),
{
    let ghost kws = reg.spec_keywords();
    let ghost before = content@;
    let n = rest.len();
    let c = rest[i];
    if in_string {
        content.push(c);
        assert(content@ =~= before + seq![c]);
        (i + 1, c != 0x22, expect)
    } else if c == 0x20 {
        (i + 1, false, expect)
    } else if bin && expect && c >= 0x30 && c <= 0x39 {
        let j = scan_target(rest, i, content);
        proof {
            let v = digits_value(rest@.subrange(i as int, j as int));
            let added = if v <= 0xFFFF {
                seq![0x1Fu8] + be16_bytes(v as u16) + seq![0x00u8]
            } else {
                rest@.subrange(i as int, j as int)
            };
            assert(content@ == before + added);
            assert(scan_from(rest@, i as int, false, true, true, kws) == added + scan_from(rest@, j as int, false, false, true, kws));
        }
        (j, false, false)
    } else if c == 0x27 {
        push_range(content, rest, i, n);
        assert(scan_from(rest@, n as int, false, false, bin, kws) =~= Seq::<u8>::empty());
        assert(content@ + Seq::<u8>::empty() =~= content@);
        (n, false, false)
    } else if c == 0x22 {
        content.push(c);
        assert(content@ =~= before + seq![c]);
        (i + 1, true, false)
    } else if c >= 0xE0 {
        content.push(c);
        if i + 1 < n {
            content.push(rest[i + 1]);
            assert(content@ =~= before + seq![c, rest@[i + 1]]);
            (i + 2, false, false)
        } else {
            assert(scan_from(rest@, (i + 1) as int, false, false, bin, kws) =~= Seq::<u8>::empty());
            assert(content@ =~= before + seq![c] + Seq::<u8>::empty());
            (i + 1, false, false)
        }
    } else if c >= 0x41 && c <= 0x5A {
        scan_keyword(rest, reg, bin, i, content)
    } else {
        content.push(c);
        assert(content@ =~= before + seq![c]);
        (i + 1, false, false)
    }
}

/// The digits of a PC-1600 line-number target at `i`: `1F hi lo 00` when they fit in 16
/// bits, else the digits themselves. Returns where the scan goes on.
fn scan_target(rest: &[u8], i: usize, content: &mut Vec<u8>) -> (j: usize)
    requires
        i < rest@.len(),
        is_digit(rest@[i as int]),
    ensures
        i < j <= rest@.len(),
        j == i + digit_run(rest@, i as int, 5),
        ({
            let v = digits_value(rest@.subrange(i as int, j as int));
            final(content)@ == old(content)@ + if v <= 0xFFFF {
                seq![0x1Fu8] + be16_bytes(v as u16) + seq![0x00u8]
            } else {
                rest@.subrange(i as int, j as int)
            }
        }),
{
    let ghost before = content@;
    let n = rest.len();
    let start = i;
    let mut k = i;
    let mut v: u32 = 0;
    while k < n && rest[k] >= 0x30 && rest[k] <= 0x39 && k - start < 5
        invariant
            start <= k <= n == rest@.len(),
            k - start <= 5,
            forall|j: int| start <= j < k ==> is_digit(#[trigger] rest@[j]),
            v == digits_value(rest@.subrange(start as int, k as int)),
            digits_value(rest@.subrange(start as int, k as int)) < pow10(k - start),
            digit_run(rest@, start as int, 5) == (k - start) + digit_run(rest@, k as int, (5 - (k - start)) as nat),
        decreases n - k,
    {
        assert(rest@.subrange(start as int, k + 1).drop_last() =~= rest@.subrange(start as int, k as int));
        assert(pow10(k + 1 - start) == pow10(k - start) * 10);
        v = v * 10 + (rest[k] - 0x30) as u32;
        k = k + 1;
    }
    assert(digit_run(rest@, k as int, (5 - (k - start)) as nat) == 0);
    if v <= 0xFFFF {
        content.push(0x1F);
        content.push((v / 256) as u8);
        content.push((v % 256) as u8);
        content.push(0x00);
        assert(content@ =~= before + (seq![0x1Fu8] + be16_bytes(v as u16) + seq![0x00u8]));
    } else {
        push_range(content, rest, start, k);
    }
    k
}

/// `10^e` for the small exponents of a line-number target.
pub open spec fn pow10(e: int) -> int {
    if e <= 0 {
        1
    } else if e == 1 {
        10
    } else if e == 2 {
        100
    } else if e == 3 {
        1000
    } else if e == 4 {
        10000
    } else {
        100000
    }
}

/// A letter at `i`: the longest keyword there, or the letter itself.
fn scan_keyword(rest: &[u8], reg: &Registry, bin: bool, i: usize, content: &mut Vec<u8>) -> (r: (
    usize,
    bool,
    bool,
))
    requires
        reg.wf(),
        bin == (reg.spec_device() == Device::Pc1600),
        i < rest@.len(),
        0x41 <= rest@[i as int] <= 0x5A,
    ensures
        i < r.0 <= rest@.len(),
        old(content)@ + scan_from(rest@, i as int, false, false, bin, reg.spec_keywords())
            == final(content)@ + scan_from(rest@, r.0 as int, r.1, r.2, bin, reg.spec_keywords()),
{
    let ghost kws = reg.spec_keywords();
    let ghost before = content@;
    let n = rest.len();
    let c = rest[i];
    let tail = vstd::slice::slice_subrange(rest, i, n);
    assert(tail@ =~= rest@.skip(i as int));
    match reg.longest_keyword_prefix(tail) {
        Some(kw) => {
            proof {
                lemma_longest_is_prefix(kws, tail@, kws.len() as int);
            }
            let code = kw.code;
            content.push((code / 256) as u8);
            content.push((code % 256) as u8);
            let len = kw.name.len();
            let is_target = is_target_name(&kw.name);
            let j = i + len;
            if code == REM_CODE {
                push_range(content, rest, j, n);
                assert(scan_from(rest@, n as int, false, false, bin, kws) =~= Seq::<u8>::empty());
                assert(content@ =~= before + (be16_bytes(code) + rest@.subrange(j as int, n as int))
                    + Seq::<u8>::empty());
                (n, false, false)
            } else {
                assert(content@ =~= before + be16_bytes(code));
                (j, false, is_target)
            }
        },
        None => {
            content.push(c);
            assert(content@ =~= before + seq![c]);
            (i + 1, false, false)
        },
    }
}

/// A digit run is at least one digit long when it starts on a digit, and stays in bounds.
pub proof fn lemma_digit_run(b: Seq<u8>, i: int, k: nat)
    requires
        0 <= i,
    ensures
        i + digit_run(b, i, k) <= b.len() || digit_run(b, i, k) == 0,
        digit_run(b, i, k) <= k,
        k > 0 && i < b.len() && is_digit(b[i]) ==> digit_run(b, i, k) >= 1,
    decreases k,
{
    if k > 0 && i < b.len() && is_digit(b[i]) {
        lemma_digit_run(b, i + 1, (k - 1) as nat);
    }
}

pub proof fn lemma_longest_is_prefix(kws: Seq<KeywordView>, s: Seq<u8>, n: int)
    ensures
        longest_among(kws, s, n) matches Some(k) ==> 0 <= k < n && is_prefix(kws[k].name, s),
    decreases n,
{
    if n > 0 {
        lemma_longest_is_prefix(kws, s, n - 1);
    }
}

/// The keyword spelled `name` takes a line-number target.
fn is_target_name(name: &Vec<u8>) -> (r: bool)
    ensures
        r == takes_target(name@),
{
    let goto: [u8; 4] = [0x47, 0x4F, 0x54, 0x4F];
    let gosub: [u8; 5] = [0x47, 0x4F, 0x53, 0x55, 0x42];
    let then: [u8; 4] = [0x54, 0x48, 0x45, 0x4E];
    let resume: [u8; 6] = [0x52, 0x45, 0x53, 0x55, 0x4D, 0x45];
    let run: [u8; 3] = [0x52, 0x55, 0x4E];
    let restore: [u8; 7] = [0x52, 0x45, 0x53, 0x54, 0x4F, 0x52, 0x45];
    assert(goto@ =~= seq![0x47u8, 0x4F, 0x54, 0x4F]);
    assert(gosub@ =~= seq![0x47u8, 0x4F, 0x53, 0x55, 0x42]);
    assert(then@ =~= seq![0x54u8, 0x48, 0x45, 0x4E]);
    assert(resume@ =~= seq![0x52u8, 0x45, 0x53, 0x55, 0x4D, 0x45]);
    assert(run@ =~= seq![0x52u8, 0x55, 0x4E]);
    assert(restore@ =~= seq![0x52u8, 0x45, 0x53, 0x54, 0x4F, 0x52, 0x45]);
    crate::registry::same_bytes(name, goto.as_slice()) || crate::registry::same_bytes(name, gosub.as_slice())
        || crate::registry::same_bytes(name, then.as_slice()) || crate::registry::same_bytes(
        name,
        resume.as_slice(),
    ) || crate::registry::same_bytes(name, run.as_slice()) || crate::registry::same_bytes(
        name,
        restore.as_slice(),
    )
}

/// Scanning on within a line without newline leaves the result as it is.
proof fn lemma_tok_run(b: Seq<u8>, start: int, i: int, bin: bool, kws: Seq<KeywordView>, m: SegmentMarker)
    requires
        0 <= start <= i <= b.len(),
        forall|j: int| i <= j < b.len() ==> b[j] != 0x0A,
    ensures
        tok_from(b, start, i, bin, kws, m) == tok_line(b.subrange(start, b.len() as int), bin, kws, m),
    decreases b.len() - i,
{
    if i < b.len() {
        lemma_tok_run(b, start, i + 1, bin, kws, m);
    }
}

/// Tokenizing what follows a prefix is tokenizing it on its own.
proof fn lemma_tok_shift(p: Seq<u8>, b: Seq<u8>, s: int, i: int, bin: bool, kws: Seq<KeywordView>, m: SegmentMarker)
    requires
        0 <= s <= i <= b.len(),
    ensures
        tok_from(p + b, p.len() + s, p.len() + i, bin, kws, m) == tok_from(b, s, i, bin, kws, m),
    decreases b.len() - i,
{
    let x = p + b;
    let k = p.len() as int;
    if i < b.len() {
        assert(x[k + i] == b[i]);
        if b[i] == 0x0A {
            assert(x.subrange(k + s, k + i) =~= b.subrange(s, i));
            lemma_tok_shift(p, b, i + 1, i + 1, bin, kws, m);
        } else {
            lemma_tok_shift(p, b, s, i + 1, bin, kws, m);
        }
    } else {
        assert(x.subrange(k + s, x.len() as int) =~= b.subrange(s, b.len() as int));
    }
}

/// Tokenizing is line by line, in order: a line, a newline and the rest tokenize as the
/// line's bytes followed by the rest's (or as the first error, the line's first).
pub proof fn lemma_tokenize_lines(a: Seq<u8>, b: Seq<u8>, bin: bool, kws: Seq<KeywordView>, m: SegmentMarker)
    requires
        forall|j: int| 0 <= j < a.len() ==> a[j] != 0x0A,
    ensures
        tokenize_spec(a + seq![0x0Au8] + b, bin, kws, m) == match tokenize_spec(a, bin, kws, m) {
            Err(e) => Err(e),
            Ok(x) => match tokenize_spec(b, bin, kws, m) {
                Err(e) => Err(e),
                Ok(y) => Ok::<Seq<u8>, (u16, int)>(x + y),
            },
        },
{
    let p = a + seq![0x0Au8];
    let t = p + b;
    assert(a + seq![0x0Au8] + b =~= t);
    assert forall|j: int| 0 <= j < a.len() implies t[j] != 0x0A by {
        assert(t[j] == a[j]);
    }
    lemma_tok_run(a, 0, 0, bin, kws, m);
    assert(a.subrange(0, a.len() as int) =~= a);
    lemma_tok_prefix_scan(t, a.len() as int, 0, bin, kws, m);
    assert(t.subrange(0, a.len() as int) =~= a);
    assert(t[a.len() as int] == 0x0A);
    lemma_tok_shift(p, b, 0, 0, bin, kws, m);
}

/// Before the first newline at `n`, scanning goes on to it.
proof fn lemma_tok_prefix_scan(t: Seq<u8>, n: int, i: int, bin: bool, kws: Seq<KeywordView>, m: SegmentMarker)
    requires
        0 <= i <= n < t.len(),
        forall|j: int| i <= j < n ==> t[j] != 0x0A,
    ensures
        tok_from(t, 0, i, bin, kws, m) == tok_from(t, 0, n, bin, kws, m),
    decreases n - i,
{
    if i < n {
        lemma_tok_prefix_scan(t, n, i + 1, bin, kws, m);
    }
}

} // verus!
