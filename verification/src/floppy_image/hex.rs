//! The `addressed-hex` encoding of a side's bytes: lines `$ADDR: XX XX …` (up to 16 bytes)
//! or `$ADDR: XX...` (byte `XX` repeated up to the next line's address or the end).

use vstd::prelude::*;
use vstd::string::StringSliceAdditionalSpecFns;

use crate::textbuf::{self, padded_hex};

verus! {

/// Where the row starting at `i` ends: 16 bytes on, or the end of `b`.
pub open spec fn row_end(n: int, i: int) -> int {
    if i + 16 < n {
        i + 16
    } else {
        n
    }
}

/// All of `b[from..to]` equal `v`.
pub open spec fn uniform(b: Seq<u8>, from: int, to: int, v: u8) -> bool {
    forall|k: int| from <= k < to ==> b[k] == v
}

/// Where a run of whole rows of `v` that has reached `j` ends.
pub open spec fn run_end(b: Seq<u8>, v: u8, j: int) -> int
    decreases b.len() - j,
{
    if j >= 0 && j + 16 <= b.len() && uniform(b, j, j + 16, v) {
        run_end(b, v, j + 16)
    } else {
        j
    }
}

/// The hex text of one data row: bytes as two upper-case digits, separated by one
/// space, two before the ninth.
pub open spec fn row_hex(row: Seq<u8>) -> Seq<char>
    decreases row.len(),
{
    if row.len() == 0 {
        Seq::empty()
    } else {
        row_hex(row.drop_last()) + (if row.len() == 1 {
            Seq::empty()
        } else if row.len() == 9 {
            seq![' ', ' ']
        } else {
            seq![' ']
        }) + padded_hex(row.last() as nat, 2)
    }
}

/// `$ADDR: ` for address `a`.
pub open spec fn addr_prefix(a: int) -> Seq<char> {
    seq!['$'] + padded_hex(a as nat, 4) + seq![':', ' ']
}

/// The lines encoding `b` from `i` on: a row holding two different bytes is written out
/// (16 bytes or what is left); else the run of whole uniform rows starting there becomes
/// `$ADDR: XX...`.
pub open spec fn hex_lines(b: Seq<u8>, i: int) -> Seq<Seq<char>>
    decreases b.len() - i,
{
    if i < 0 || i >= b.len() {
        Seq::empty()
    } else {
        let re = row_end(b.len() as int, i);
        let first = b[i];
        if !uniform(b, i, re, first) {
            seq![addr_prefix(i) + row_hex(b.subrange(i, re))] + hex_lines(b, re)
        } else {
            let e = run_end(b, first, re);
            proof {
                lemma_run_end(b, first, re);
            }
            seq![addr_prefix(i) + padded_hex(first as nat, 2) + seq!['.', '.', '.']] + hex_lines(b, e)
        }
    }
}

pub proof fn lemma_run_end(b: Seq<u8>, v: u8, j: int)
    requires
        0 <= j,
    ensures
        run_end(b, v, j) >= j,
        j <= b.len() ==> run_end(b, v, j) <= b.len(),
        uniform(b, j, run_end(b, v, j), v),
    decreases b.len() - j,
{
    if j + 16 <= b.len() && uniform(b, j, j + 16, v) {
        lemma_run_end(b, v, j + 16);
    }
}

/// The `addressed-hex` lines of `bytes`: 16-byte rows (upper-case hex, two spaces before
/// the ninth byte), a run of whole uniform rows collapsed to `$ADDR: XX...`.
pub fn format_addressed_hex(bytes: &[u8]) -> (lines: Vec<String>)
    ensures
        lines@.len() == hex_lines(bytes@, 0).len(),
        forall|k: int| 0 <= k < lines@.len() ==> (#[trigger] lines@[k])@ == hex_lines(bytes@, 0)[k],
{
    let n = bytes.len();
    let mut lines: Vec<String> = Vec::new();
    let mut i: usize = 0;
    while i < n
        invariant
            i <= n == bytes@.len(),
            Seq::new(lines@.len(), |k: int| lines@[k]@) + hex_lines(bytes@, i as int) == hex_lines(bytes@, 0),
        decreases n - i,
    {
        let ghost done = Seq::new(lines@.len(), |k: int| lines@[k]@);
        let re = if n - i > 16 {
            i + 16
        } else {
            n
        };
        let first = bytes[i];
        let mut k = i;
        while k < re && bytes[k] == first
            invariant
                i <= k <= re <= n == bytes@.len(),
                uniform(bytes@, i as int, k as int, first),
            decreases re - k,
        {
            k = k + 1;
        }
        let mut s = String::new();
        textbuf::push_char(&mut s, '$');
        textbuf::push_padded_hex(&mut s, i as u64, 4);
        textbuf::push_char(&mut s, ':');
        textbuf::push_char(&mut s, ' ');
        assert(s@ =~= addr_prefix(i as int));
        if k < re {
            assert(!uniform(bytes@, i as int, re as int, first));
            push_row_hex(&mut s, bytes, i, re);
            lines.push(s);
            proof {
                let line = addr_prefix(i as int) + row_hex(bytes@.subrange(i as int, re as int));
                assert(Seq::new(lines@.len(), |j: int| lines@[j]@) =~= done.push(line));
            }
            i = re;
        } else {
            let mut e = re;
            proof {
                lemma_run_end(bytes@, first, re as int);
            }
            while n - e >= 16 && all_equal(bytes, e, e + 16, first)
                invariant
                    re <= e <= n == bytes@.len(),
                    s@ == addr_prefix(i as int),
                    run_end(bytes@, first, re as int) == run_end(bytes@, first, e as int),
                decreases n - e,
            {
                e = e + 16;
            }
            let ghost pre = s@;
            textbuf::push_padded_hex(&mut s, first as u64, 2);
            textbuf::push_char(&mut s, '.');
            textbuf::push_char(&mut s, '.');
            textbuf::push_char(&mut s, '.');
            assert(s@ =~= pre + padded_hex(first as nat, 2) + seq!['.', '.', '.']);
            lines.push(s);
            proof {
                let line = addr_prefix(i as int) + padded_hex(first as nat, 2) + seq!['.', '.', '.'];
                assert(Seq::new(lines@.len(), |j: int| lines@[j]@) =~= done.push(line));
            }
            i = e;
        }
    }
    proof {
        let done = Seq::new(lines@.len(), |k: int| lines@[k]@);
        assert(done + hex_lines(bytes@, i as int) =~= done);
    }
    lines
}

/// All of `b[from..to]` equal `v`.
fn all_equal(b: &[u8], from: usize, to: usize, v: u8) -> (r: bool)
    requires
        from <= to <= b@.len(),
    ensures
        r == uniform(b@, from as int, to as int, v),
{
    let mut k = from;
    while k < to
        invariant
            from <= k <= to <= b@.len(),
            uniform(b@, from as int, k as int, v),
        decreases to - k,
    {
        if b[k] != v {
            return false;
        }
        k = k + 1;
    }
    true
}

/// Append the hex text of `b[from..to]`.
fn push_row_hex(s: &mut String, b: &[u8], from: usize, to: usize)
    requires
        from <= to <= b@.len(),
    ensures
        final(s)@ == old(s)@ + row_hex(b@.subrange(from as int, to as int)),
{
    let ghost start = s@;
    let mut k = from;
    assert(b@.subrange(from as int, from as int) =~= Seq::<u8>::empty());
    while k < to
        invariant
            from <= k <= to <= b@.len(),
            s@ == start + row_hex(b@.subrange(from as int, k as int)),
        decreases to - k,
    {
        let ghost before = s@;
        if k != from {
            if k - from == 8 {
                textbuf::push_char(s, ' ');
                textbuf::push_char(s, ' ');
            } else {
                textbuf::push_char(s, ' ');
            }
        }
        textbuf::push_padded_hex(s, b[k] as u64, 2);
        assert(b@.subrange(from as int, k + 1).drop_last() =~= b@.subrange(from as int, k as int));
        k = k + 1;
        assert(s@ =~= start + row_hex(b@.subrange(from as int, k as int)));
    }
}


// ── reading ──────────────────────────────────────────────────────────────

/// One parsed line: its address, and either a run byte or its bytes.
pub struct HexLine {
    pub addr: nat,
    pub run: Option<u8>,
    pub bytes: Seq<u8>,
}

proof fn lemma_cover_len(ls: Seq<HexLine>, i: int, cursor: nat, len: nat)
    ensures
        cover(ls, i, cursor, len) matches Ok(v) ==> cursor + v.len() == len,
    decreases ls.len() - i,
{
    if 0 <= i < ls.len() {
        let l = ls[i];
        match l.run {
            Some(b) => {
                let end = if i + 1 < ls.len() {
                    ls[i + 1].addr
                } else {
                    len
                };
                if cursor < end <= len {
                    lemma_cover_len(ls, i + 1, end, len);
                }
            },
            None => {
                let end = cursor + l.bytes.len();
                if end <= len {
                    lemma_cover_len(ls, i + 1, end as nat, len);
                }
            },
        }
    }
}

/// Whatever text reads as an `addressed-hex` block of `len` bytes gives exactly `len` bytes.
pub proof fn lemma_hex_parse_len(b: Seq<u8>, len: nat)
    ensures
        parse_hex_spec(b, len) matches Ok(v) ==> v.len() == len,
{
    if let Ok(ls) = hex_lines_from(b, 0, 0) {
        lemma_cover_len(sort_lines(ls), 0, 0, len);
    }
}

/// Why an `addressed-hex` block does not read.
pub enum HexFault {
    NoDollar,
    NoColon,
    BadAddress,
    EmptyLine,
    BadRunByte,
    BadPair,
    NoLines,
    Gap(nat),
    BadRun(nat),
    Overrun(nat),
    Covers(nat),
}

pub open spec fn hex_digit(b: u8) -> Option<nat> {
    crate::variables::hex_val(b)
}

pub open spec fn is_ascii_ws(b: u8) -> bool {
    b == 0x20 || b == 0x09 || b == 0x0A || b == 0x0C || b == 0x0D
}

pub open spec fn is_line_blank(b: u8) -> bool {
    b == 0x20 || b == 0x09 || b == 0x0D
}

/// `l` without leading and trailing spaces, tabs and CRs.
pub open spec fn trim_line(l: Seq<u8>) -> Seq<u8>
    decreases l.len(),
{
    if l.len() > 0 && is_line_blank(l[0]) {
        trim_line(l.drop_first())
    } else if l.len() > 0 && is_line_blank(l.last()) {
        trim_line(l.drop_last())
    } else {
        l
    }
}

pub open spec fn hex_value(s: Seq<u8>) -> nat
    decreases s.len(),
{
    if s.len() == 0 {
        0
    } else {
        hex_value(s.drop_last()) * 16 + hex_digit(s.last())->0
    }
}

pub open spec fn all_hex(s: Seq<u8>) -> bool {
    forall|i: int| 0 <= i < s.len() ==> hex_digit(#[trigger] s[i]) is Some
}

/// What `usize::from_str_radix(_, 16)` accepts: an optional `+`, then hex digits.
pub open spec fn parse_hex_usize(s: Seq<u8>) -> Option<nat> {
    let d = if s.len() > 0 && s[0] == 0x2B {
        s.drop_first()
    } else {
        s
    };
    if d.len() == 0 || !all_hex(d) || hex_value(d) > usize::MAX {
        None
    } else {
        Some(hex_value(d))
    }
}

/// Two hex digits.
pub open spec fn pair_value(t: Seq<u8>) -> Option<u8> {
    if t.len() == 2 && hex_digit(t[0]) is Some && hex_digit(t[1]) is Some {
        Some((hex_digit(t[0])->0 * 16 + hex_digit(t[1])->0) as u8)
    } else {
        None
    }
}

/// End of the token starting at `i`.
pub open spec fn token_end(d: Seq<u8>, i: int) -> int
    decreases d.len() - i,
{
    if i < 0 || i >= d.len() || is_ascii_ws(d[i]) {
        i
    } else {
        token_end(d, i + 1)
    }
}

pub proof fn lemma_token_end(d: Seq<u8>, i: int)
    requires
        0 <= i <= d.len(),
    ensures
        i <= token_end(d, i) <= d.len(),
        forall|k: int| i <= k < token_end(d, i) ==> !is_ascii_ws(#[trigger] d[k]),
    decreases d.len() - i,
{
    if i < d.len() && !is_ascii_ws(d[i]) {
        lemma_token_end(d, i + 1);
    }
}

/// The whitespace-separated tokens of `d` from `i` on.
pub open spec fn tokens_from(d: Seq<u8>, i: int) -> Seq<Seq<u8>>
    decreases d.len() - i,
{
    if i < 0 || i >= d.len() {
        Seq::empty()
    } else if is_ascii_ws(d[i]) {
        tokens_from(d, i + 1)
    } else {
        let e = token_end(d, i);
        proof {
            lemma_token_end(d, i);
        }
        if e <= i {
            Seq::empty()
        } else {
            seq![d.subrange(i, e)] + tokens_from(d, e)
        }
    }
}

/// The values of hex-pair tokens, or `None` at the first that is not one.
pub open spec fn pair_values(toks: Seq<Seq<u8>>) -> Option<Seq<u8>>
    decreases toks.len(),
{
    if toks.len() == 0 {
        Some(Seq::empty())
    } else {
        match (pair_values(toks.drop_last()), pair_value(toks.last())) {
            (Some(p), Some(v)) => Some(p.push(v)),
            _ => None,
        }
    }
}

/// Index of the first `:` of `s`.
pub open spec fn colon_at(s: Seq<u8>, i: int) -> Option<int>
    decreases s.len() - i,
{
    if i < 0 || i >= s.len() {
        None
    } else if s[i] == 0x3A {
        Some(i)
    } else {
        colon_at(s, i + 1)
    }
}

/// One non-blank, trimmed line.
pub open spec fn parse_hex_line(s: Seq<u8>) -> Result<HexLine, HexFault> {
    if s.len() == 0 || s[0] != 0x24 {
        Err(HexFault::NoDollar)
    } else {
        let rest = s.drop_first();
        match colon_at(rest, 0) {
            None => Err(HexFault::NoColon),
            Some(c) => match parse_hex_usize(rest.take(c)) {
                None => Err(HexFault::BadAddress),
                Some(addr) => {
                    let toks = tokens_from(rest.skip(c + 1), 0);
                    if toks.len() == 0 {
                        Err(HexFault::EmptyLine)
                    } else if toks.len() == 1 && toks[0].len() == 5 && toks[0].skip(2) == seq![
                        0x2Eu8,
                        0x2E,
                        0x2E,
                    ] {
                        match pair_value(toks[0].take(2)) {
                            Some(v) => Ok(HexLine { addr, run: Some(v), bytes: Seq::empty() }),
                            None => Err(HexFault::BadRunByte),
                        }
                    } else {
                        match pair_values(toks) {
                            Some(bs) => Ok(HexLine { addr, run: None, bytes: bs }),
                            None => Err(HexFault::BadPair),
                        }
                    }
                },
            },
        }
    }
}

/// The parsed lines of `b` from the line starting at `start`, now at `i` (blank lines
/// skipped), or the first fault.
pub open spec fn hex_lines_from(b: Seq<u8>, start: int, i: int) -> Result<Seq<HexLine>, HexFault>
    decreases b.len() - i,
{
    if i >= b.len() || i < start || start < 0 {
        one_line(b.subrange(start, b.len() as int))
    } else if b[i] == 0x0A {
        match one_line(b.subrange(start, i)) {
            Err(f) => Err(f),
            Ok(l) => match hex_lines_from(b, i + 1, i + 1) {
                Err(f) => Err(f),
                Ok(r) => Ok(l + r),
            },
        }
    } else {
        hex_lines_from(b, start, i + 1)
    }
}

/// A raw line: nothing if blank, else the parsed line.
pub open spec fn one_line(raw: Seq<u8>) -> Result<Seq<HexLine>, HexFault> {
    let s = trim_line(raw);
    if s.len() == 0 {
        Ok(Seq::empty())
    } else {
        match parse_hex_line(s) {
            Ok(l) => Ok(seq![l]),
            Err(f) => Err(f),
        }
    }
}

/// `ls` with `x` inserted after every line whose address is not larger.
pub open spec fn insert_line(ls: Seq<HexLine>, x: HexLine) -> Seq<HexLine>
    decreases ls.len(),
{
    if ls.len() == 0 {
        seq![x]
    } else if ls.last().addr <= x.addr {
        ls.push(x)
    } else {
        insert_line(ls.drop_last(), x).push(ls.last())
    }
}

/// `ls` sorted by address, keeping the order of equal addresses.
pub open spec fn sort_lines(ls: Seq<HexLine>) -> Seq<HexLine>
    decreases ls.len(),
{
    if ls.len() == 0 {
        Seq::empty()
    } else {
        insert_line(sort_lines(ls.drop_last()), ls.last())
    }
}

/// The bytes covered by sorted lines from the `i`-th on, the cursor at `cursor`: each line
/// must start at the cursor; a run reaches the next line's address (or `len`), a data
/// line covers its bytes; together they must cover exactly `len` bytes.
pub open spec fn cover(ls: Seq<HexLine>, i: int, cursor: nat, len: nat) -> Result<Seq<u8>, HexFault>
    decreases ls.len() - i,
{
    if i < 0 || i >= ls.len() {
        if cursor != len {
            Err(HexFault::Covers(cursor))
        } else {
            Ok(Seq::empty())
        }
    } else {
        let l = ls[i];
        if l.addr != cursor {
            Err(HexFault::Gap(cursor))
        } else {
            match l.run {
                Some(b) => {
                    let end = if i + 1 < ls.len() {
                        ls[i + 1].addr
                    } else {
                        len
                    };
                    if end <= cursor || end > len {
                        Err(HexFault::BadRun(cursor))
                    } else {
                        match cover(ls, i + 1, end, len) {
                            Err(f) => Err(f),
                            Ok(r) => Ok(Seq::new((end - cursor) as nat, |k: int| b) + r),
                        }
                    }
                },
                None => {
                    let end = cursor + l.bytes.len();
                    if end > len {
                        Err(HexFault::Overrun(cursor))
                    } else {
                        match cover(ls, i + 1, end, len) {
                            Err(f) => Err(f),
                            Ok(r) => Ok(l.bytes + r),
                        }
                    }
                },
            }
        }
    }
}

/// Reading an `addressed-hex` block that must cover exactly `len` bytes.
pub open spec fn parse_hex_spec(b: Seq<u8>, len: nat) -> Result<Seq<u8>, HexFault> {
    match hex_lines_from(b, 0, 0) {
        Err(f) => Err(f),
        Ok(ls) => if ls.len() == 0 {
            Err(HexFault::NoLines)
        } else {
            cover(sort_lines(ls), 0, 0, len)
        },
    }
}


/// Why an `addressed-hex` block does not read.
#[derive(Clone, Copy, Debug, PartialEq, Eq)]
pub enum HexError {
    NoDollar,
    NoColon,
    BadAddress,
    EmptyLine,
    BadRunByte,
    BadPair,
    NoLines,
    Gap(usize),
    BadRun(usize),
    Overrun(usize),
    Covers(usize, usize),
}

pub open spec fn hex_reports(e: HexError, f: HexFault) -> bool {
    match (e, f) {
        (HexError::NoDollar, HexFault::NoDollar) => true,
        (HexError::NoColon, HexFault::NoColon) => true,
        (HexError::BadAddress, HexFault::BadAddress) => true,
        (HexError::EmptyLine, HexFault::EmptyLine) => true,
        (HexError::BadRunByte, HexFault::BadRunByte) => true,
        (HexError::BadPair, HexFault::BadPair) => true,
        (HexError::NoLines, HexFault::NoLines) => true,
        (HexError::Gap(a), HexFault::Gap(b)) => a == b,
        (HexError::BadRun(a), HexFault::BadRun(b)) => a == b,
        (HexError::Overrun(a), HexFault::Overrun(b)) => a == b,
        (HexError::Covers(a, _), HexFault::Covers(b)) => a == b,
        _ => false,
    }
}

impl HexError {
    /// The error as a line of text.
    pub open spec fn message_text(self) -> Seq<char> {
        match self {
            HexError::NoDollar => "addressed-hex line must start with '$'"@,
            HexError::NoColon => "addressed-hex line missing ':'"@,
            HexError::BadAddress => "bad address in addressed-hex line"@,
            HexError::EmptyLine => "empty addressed-hex line"@,
            HexError::BadRunByte => "bad run byte in addressed-hex line"@,
            HexError::BadPair => "not a hex byte pair in addressed-hex line"@,
            HexError::NoLines => "addressed-hex block has no lines"@,
            HexError::Gap(c) => "addressed-hex lines have a gap or overlap at/near $"@ + crate::textbuf::padded_hex(
                c as nat,
                4,
            ),
            HexError::BadRun(c) => "addressed-hex run at $"@ + crate::textbuf::padded_hex(c as nat, 4)
                + " has an invalid length"@,
            HexError::Overrun(c) => "addressed-hex line at $"@ + crate::textbuf::padded_hex(c as nat, 4)
                + " overruns the block"@,
            HexError::Covers(c, n) => "addressed-hex block covers 0x"@ + crate::textbuf::hex(c as nat)
                + " bytes but needs 0x"@ + crate::textbuf::hex(n as nat),
        }
    }

    pub fn message(&self) -> (s: String)
        ensures
            s@ == self.message_text(),
    {
        let mut s = String::new();
        match self {
            HexError::NoDollar => textbuf::push_str(&mut s, "addressed-hex line must start with '$'"),
            HexError::NoColon => textbuf::push_str(&mut s, "addressed-hex line missing ':'"),
            HexError::BadAddress => textbuf::push_str(&mut s, "bad address in addressed-hex line"),
            HexError::EmptyLine => textbuf::push_str(&mut s, "empty addressed-hex line"),
            HexError::BadRunByte => textbuf::push_str(&mut s, "bad run byte in addressed-hex line"),
            HexError::BadPair => textbuf::push_str(&mut s, "not a hex byte pair in addressed-hex line"),
            HexError::NoLines => textbuf::push_str(&mut s, "addressed-hex block has no lines"),
            HexError::Gap(c) => {
                textbuf::push_str(&mut s, "addressed-hex lines have a gap or overlap at/near $");
                textbuf::push_padded_hex(&mut s, *c as u64, 4);
            },
            HexError::BadRun(c) => {
                textbuf::push_str(&mut s, "addressed-hex run at $");
                textbuf::push_padded_hex(&mut s, *c as u64, 4);
                textbuf::push_str(&mut s, " has an invalid length");
            },
            HexError::Overrun(c) => {
                textbuf::push_str(&mut s, "addressed-hex line at $");
                textbuf::push_padded_hex(&mut s, *c as u64, 4);
                textbuf::push_str(&mut s, " overruns the block");
            },
            HexError::Covers(c, n) => {
                textbuf::push_str(&mut s, "addressed-hex block covers 0x");
                textbuf::push_hex(&mut s, *c as u64);
                textbuf::push_str(&mut s, " bytes but needs 0x");
                textbuf::push_hex(&mut s, *n as u64);
            },
        }
        s
    }
}

/// A parsed line.
pub struct ParsedLine {
    pub addr: usize,
    pub run: Option<u8>,
    pub bytes: Vec<u8>,
}

impl View for ParsedLine {
    type V = HexLine;

    open spec fn view(&self) -> HexLine {
        HexLine { addr: self.addr as nat, run: self.run, bytes: self.bytes@ }
    }
}

pub open spec fn line_views(ls: Seq<ParsedLine>) -> Seq<HexLine> {
    ls.map_values(|l: ParsedLine| l@)
}

fn hex_digit_exec(b: u8) -> (r: Option<u8>)
    ensures
        match r {
            Some(v) => hex_digit(b) == Some(v as nat),
            None => hex_digit(b) is None,
        },
{
    if b >= 0x30 && b <= 0x39 {
        Some(b - 0x30)
    } else if b >= 0x41 && b <= 0x46 {
        Some(b - 0x37)
    } else if b >= 0x61 && b <= 0x66 {
        Some(b - 0x57)
    } else {
        None
    }
}

/// `s[from..to]` read as a hexadecimal `usize`.
fn parse_hex_usize_exec(s: &[u8], from: usize, to: usize) -> (r: Option<usize>)
    requires
        from <= to <= s@.len(),
    ensures
        match r {
            Some(v) => parse_hex_usize(s@.subrange(from as int, to as int)) == Some(v as nat),
            None => parse_hex_usize(s@.subrange(from as int, to as int)) is None,
        },
{
    let ghost t = s@.subrange(from as int, to as int);
    let start = if to > from && s[from] == 0x2B {
        from + 1
    } else {
        from
    };
    let ghost d = s@.subrange(start as int, to as int);
    assert(start == from + 1 ==> d =~= t.drop_first());
    assert(start == from ==> d =~= t);
    if start == to {
        return None;
    }
    let mut v: usize = 0;
    let mut k = start;
    while k < to
        invariant
            start <= k <= to <= s@.len(),
            start < to,
            t == s@.subrange(from as int, to as int),
            d == s@.subrange(start as int, to as int),
            d == (if t.len() > 0 && t[0] == 0x2B {
                t.drop_first()
            } else {
                t
            }),
            all_hex(s@.subrange(start as int, k as int)),
            v == hex_value(s@.subrange(start as int, k as int)),
        decreases to - k,
    {
        let dv = match hex_digit_exec(s[k]) {
            Some(x) => x as usize,
            None => {
                assert(hex_digit(d[(k - start) as int]) is None);
                return None;
            },
        };
        assert(s@.subrange(start as int, k + 1).drop_last() =~= s@.subrange(start as int, k as int));
        if v > (usize::MAX - dv) / 16 {
            proof {
                assert(v * 16 + dv > usize::MAX);
                assert(d.take((k + 1 - start) as int) =~= s@.subrange(start as int, k + 1));
                if all_hex(d) {
                    lemma_hex_value_grows(d, (k + 1 - start) as int);
                }
            }
            return None;
        }
        v = v * 16 + dv;
        k = k + 1;
        assert(all_hex(s@.subrange(start as int, k as int)));
    }
    Some(v)
}

proof fn lemma_hex_value_grows(d: Seq<u8>, n: int)
    requires
        0 <= n <= d.len(),
        all_hex(d),
    ensures
        hex_value(d) >= hex_value(d.take(n)),
    decreases d.len() - n,
{
    if n < d.len() {
        lemma_hex_value_grows(d, n + 1);
        assert(d.take(n + 1).drop_last() =~= d.take(n));
    } else {
        assert(d.take(n) =~= d);
    }
}

fn pair_value_exec(s: &[u8], from: usize, to: usize) -> (r: Option<u8>)
    requires
        from <= to <= s@.len(),
    ensures
        r == pair_value(s@.subrange(from as int, to as int)),
{
    if to - from != 2 {
        return None;
    }
    match (hex_digit_exec(s[from]), hex_digit_exec(s[from + 1])) {
        (Some(a), Some(b)) => Some(a * 16 + b),
        _ => None,
    }
}

/// Bounds of `s[from..to]` without leading and trailing spaces, tabs and CRs.
fn trim_line_bounds(s: &[u8], from: usize, to: usize) -> (r: (usize, usize))
    requires
        from <= to <= s@.len(),
    ensures
        from <= r.0 <= r.1 <= to,
        trim_line(s@.subrange(from as int, to as int)) == s@.subrange(r.0 as int, r.1 as int),
{
    let mut a = from;
    let mut b = to;
    while a < b && (s[a] == 0x20 || s[a] == 0x09 || s[a] == 0x0D)
        invariant
            from <= a <= b <= to <= s@.len(),
            b == to,
            trim_line(s@.subrange(from as int, to as int)) == trim_line(s@.subrange(a as int, b as int)),
        decreases b - a,
    {
        assert(s@.subrange(a as int, b as int).drop_first() =~= s@.subrange(a + 1, b as int));
        a = a + 1;
    }
    while a < b && (s[b - 1] == 0x20 || s[b - 1] == 0x09 || s[b - 1] == 0x0D)
        invariant
            from <= a <= b <= to <= s@.len(),
            a == b || !is_line_blank(s@[a as int]),
            trim_line(s@.subrange(from as int, to as int)) == trim_line(s@.subrange(a as int, b as int)),
        decreases b - a,
    {
        assert(s@.subrange(a as int, b as int).drop_last() =~= s@.subrange(a as int, b - 1));
        assert(s@.subrange(a as int, b as int)[0] == s@[a as int]);
        b = b - 1;
    }
    if a < b {
        assert(s@.subrange(a as int, b as int)[0] == s@[a as int]);
        assert(s@.subrange(a as int, b as int).last() == s@[b - 1]);
    }
    (a, b)
}


/// Index of the first `:` of `s[from..to]`, counted from `from`.
fn find_colon(s: &[u8], from: usize, to: usize) -> (r: Option<usize>)
    requires
        from <= to <= s@.len(),
    ensures
        match r {
            Some(c) => colon_at(s@.subrange(from as int, to as int), 0) == Some(c as int) && c < to - from,
            None => colon_at(s@.subrange(from as int, to as int), 0) is None,
        },
{
    let ghost t = s@.subrange(from as int, to as int);
    let mut k = from;
    while k < to
        invariant
            from <= k <= to <= s@.len(),
            t == s@.subrange(from as int, to as int),
            colon_at(t, 0) == colon_at(t, k - from),
        decreases to - k,
    {
        assert(t[k - from] == s@[k as int]);
        if s[k] == 0x3A {
            return Some(k - from);
        }
        k = k + 1;
    }
    None
}

/// Bounds of the whitespace-separated tokens of `s[from..to]`.
fn token_bounds(s: &[u8], from: usize, to: usize) -> (r: Vec<(usize, usize)>)
    requires
        from <= to <= s@.len(),
    ensures
        r@.len() == tokens_from(s@.subrange(from as int, to as int), 0).len(),
        forall|k: int|
            0 <= k < r@.len() ==> from <= (#[trigger] r@[k]).0 <= r@[k].1 <= to && s@.subrange(
                r@[k].0 as int,
                r@[k].1 as int,
            ) == tokens_from(s@.subrange(from as int, to as int), 0)[k],
{
    let ghost d = s@.subrange(from as int, to as int);
    let mut r: Vec<(usize, usize)> = Vec::new();
    let mut i = from;
    while i < to
        invariant
            from <= i <= to <= s@.len(),
            d == s@.subrange(from as int, to as int),
            Seq::new(r@.len(), |k: int| s@.subrange(r@[k].0 as int, r@[k].1 as int)) + tokens_from(d, i - from)
                == tokens_from(d, 0),
            forall|k: int| 0 <= k < r@.len() ==> from <= (#[trigger] r@[k]).0 <= r@[k].1 <= to,
        decreases to - i,
    {
        let ghost done = Seq::new(r@.len(), |k: int| s@.subrange(r@[k].0 as int, r@[k].1 as int));
        assert(d[i - from] == s@[i as int]);
        if is_ws_byte(s[i]) {
            i = i + 1;
        } else {
            let mut e = i + 1;
            while e < to && !is_ws_byte(s[e])
                invariant
                    from <= i < e <= to <= s@.len(),
                    d == s@.subrange(from as int, to as int),
                    !is_ascii_ws(d[i - from]),
                    token_end(d, i - from) == token_end(d, e - from),
                decreases to - e,
            {
                assert(d[e - from] == s@[e as int]);
                e = e + 1;
            }
            if e < to {
                assert(d[e - from] == s@[e as int]);
            }
            assert(token_end(d, i - from) == e - from);
            r.push((i, e));
            proof {
                assert(d.subrange(i - from, e - from) =~= s@.subrange(i as int, e as int));
                assert(Seq::new(r@.len(), |k: int| s@.subrange(r@[k].0 as int, r@[k].1 as int)) =~= done.push(
                    s@.subrange(i as int, e as int),
                ));
                assert(done.push(s@.subrange(i as int, e as int)) + tokens_from(d, e - from) =~= done + (seq![
                    s@.subrange(i as int, e as int),
                ] + tokens_from(d, e - from)));
            }
            i = e;
        }
    }
    proof {
        let done = Seq::new(r@.len(), |k: int| s@.subrange(r@[k].0 as int, r@[k].1 as int));
        assert(done + tokens_from(d, i - from) =~= done);
        assert forall|k: int| 0 <= k < r@.len() implies s@.subrange(r@[k].0 as int, r@[k].1 as int)
            == tokens_from(d, 0)[k] by {
            assert(done[k] == s@.subrange(r@[k].0 as int, r@[k].1 as int));
        }
    }
    r
}

fn is_ws_byte(b: u8) -> (r: bool)
    ensures
        r == is_ascii_ws(b),
{
    b == 0x20 || b == 0x09 || b == 0x0A || b == 0x0C || b == 0x0D
}

proof fn lemma_pair_values_prefix(toks: Seq<Seq<u8>>, k: int)
    requires
        0 <= k <= toks.len(),
        pair_values(toks.take(k)) is None,
    ensures
        pair_values(toks) is None,
    decreases toks.len(),
{
    if k == toks.len() {
        assert(toks.take(k) =~= toks);
    } else {
        assert(toks.drop_last().take(k) =~= toks.take(k));
        lemma_pair_values_prefix(toks.drop_last(), k);
    }
}

/// One non-blank trimmed line `s[a..b]`.
fn parse_hex_line_exec(s: &[u8], a: usize, b: usize) -> (r: Result<ParsedLine, HexError>)
    requires
        a <= b <= s@.len(),
    ensures
        match r {
            Ok(l) => parse_hex_line(s@.subrange(a as int, b as int)) == Ok::<HexLine, HexFault>(l@),
            Err(e) => parse_hex_line(s@.subrange(a as int, b as int)) matches Err(f) && hex_reports(e, f),
        },
{
    let ghost t = s@.subrange(a as int, b as int);
    if a == b || s[a] != 0x24 {
        return Err(HexError::NoDollar);
    }
    let ghost rest = t.drop_first();
    assert(rest =~= s@.subrange(a + 1, b as int));
    let c = match find_colon(s, a + 1, b) {
        None => {
            return Err(HexError::NoColon);
        },
        Some(c) => c,
    };
    assert(rest.take(c as int) =~= s@.subrange(a + 1, a + 1 + c));
    let addr = match parse_hex_usize_exec(s, a + 1, a + 1 + c) {
        None => {
            return Err(HexError::BadAddress);
        },
        Some(v) => v,
    };
    let from = a + 1 + c + 1;
    assert(rest.skip(c + 1) =~= s@.subrange(from as int, b as int));
    let toks = token_bounds(s, from, b);
    let ghost ts = tokens_from(s@.subrange(from as int, b as int), 0);
    if toks.len() == 0 {
        return Err(HexError::EmptyLine);
    }
    let (p, q) = toks[0];
    assert(ts[0] == s@.subrange(p as int, q as int));
    let dots = toks.len() == 1 && q - p == 5 && s[p + 2] == 0x2E && s[p + 3] == 0x2E && s[p + 4] == 0x2E;
    proof {
        if ts.len() == 1 && ts[0].len() == 5 && ts[0].skip(2) == seq![0x2Eu8, 0x2E, 0x2E] {
            assert(ts[0].skip(2)[0] == s@[p + 2]);
            assert(ts[0].skip(2)[1] == s@[p + 3]);
            assert(ts[0].skip(2)[2] == s@[p + 4]);
        }
        if dots {
            assert(ts[0].skip(2) =~= seq![0x2Eu8, 0x2E, 0x2E]);
        }
    }
    if dots {
        assert(ts[0].take(2) =~= s@.subrange(p as int, p + 2));
        match pair_value_exec(s, p, p + 2) {
            Some(v) => Ok(ParsedLine { addr, run: Some(v), bytes: Vec::new() }),
            None => Err(HexError::BadRunByte),
        }
    } else {
        match pair_values_exec(s, &toks, Ghost(ts)) {
            Some(bytes) => Ok(ParsedLine { addr, run: None, bytes }),
            None => Err(HexError::BadPair),
        }
    }
}

/// The values of the hex-pair tokens `s[p..q]` for `(p, q)` in `toks`, or `None` at the
/// first that is not one.
fn pair_values_exec(s: &[u8], toks: &Vec<(usize, usize)>, Ghost(ts): Ghost<Seq<Seq<u8>>>) -> (r: Option<Vec<u8>>)
    requires
        toks@.len() == ts.len(),
        forall|j: int|
            0 <= j < toks@.len() ==> (#[trigger] toks@[j]).0 <= toks@[j].1 <= s@.len() && s@.subrange(
                toks@[j].0 as int,
                toks@[j].1 as int,
            ) == ts[j],
    ensures
        match r {
            Some(v) => pair_values(ts) == Some(v@),
            None => pair_values(ts) is None,
        },
{
    let mut bytes: Vec<u8> = Vec::new();
    let mut k: usize = 0;
    assert(ts.take(0) =~= Seq::<Seq<u8>>::empty());
    while k < toks.len()
        invariant
            0 <= k <= toks@.len() == ts.len(),
            forall|j: int|
                0 <= j < toks@.len() ==> (#[trigger] toks@[j]).0 <= toks@[j].1 <= s@.len() && s@.subrange(
                    toks@[j].0 as int,
                    toks@[j].1 as int,
                ) == ts[j],
            pair_values(ts.take(k as int)) == Some(bytes@),
        decreases toks@.len() - k,
    {
        let (p, q) = toks[k];
        assert(ts.take(k + 1).drop_last() =~= ts.take(k as int));
        assert(ts.take(k + 1).last() == ts[k as int]);
        match pair_value_exec(s, p, q) {
            Some(v) => {
                bytes.push(v);
            },
            None => {
                proof {
                    lemma_pair_values_prefix(ts, k + 1);
                }
                return None;
            },
        }
        k = k + 1;
    }
    assert(ts.take(k as int) =~= ts);
    Some(bytes)
}


/// `r` with `pre` put before its lines.
pub open spec fn after_lines(pre: Seq<HexLine>, r: Result<Seq<HexLine>, HexFault>) -> Result<Seq<HexLine>, HexFault> {
    match r {
        Err(f) => Err(f),
        Ok(x) => Ok(pre + x),
    }
}

/// `r` with `pre` put before its bytes.
pub open spec fn after_bytes(pre: Seq<u8>, r: Result<Seq<u8>, HexFault>) -> Result<Seq<u8>, HexFault> {
    match r {
        Err(f) => Err(f),
        Ok(x) => Ok(pre + x),
    }
}

/// The raw line `s[from..to]`: nothing if blank, else its parsed line.
fn one_line_exec(s: &[u8], from: usize, to: usize) -> (r: Result<Option<ParsedLine>, HexError>)
    requires
        from <= to <= s@.len(),
    ensures
        match r {
            Ok(None) => one_line(s@.subrange(from as int, to as int)) == Ok::<Seq<HexLine>, HexFault>(
                Seq::empty(),
            ),
            Ok(Some(l)) => one_line(s@.subrange(from as int, to as int)) == Ok::<Seq<HexLine>, HexFault>(
                seq![l@],
            ),
            Err(e) => one_line(s@.subrange(from as int, to as int)) matches Err(f) && hex_reports(e, f),
        },
{
    let (a, b) = trim_line_bounds(s, from, to);
    if a == b {
        return Ok(None);
    }
    match parse_hex_line_exec(s, a, b) {
        Ok(l) => Ok(Some(l)),
        Err(e) => Err(e),
    }
}

/// The line found in a raw line, as a sequence of none or one.
pub open spec fn found_lines(one: Result<Option<ParsedLine>, HexError>) -> Seq<HexLine> {
    match one {
        Ok(Some(l)) => seq![l@],
        _ => Seq::empty(),
    }
}

/// The parsed non-blank lines of `b`, in order, or the first line's fault.
fn read_hex_lines(b: &[u8]) -> (r: Result<Vec<ParsedLine>, HexError>)
    ensures
        match r {
            Ok(v) => hex_lines_from(b@, 0, 0) == Ok::<Seq<HexLine>, HexFault>(line_views(v@)),
            Err(e) => hex_lines_from(b@, 0, 0) matches Err(f) && hex_reports(e, f),
        },
{
    let n = b.len();
    let mut out: Vec<ParsedLine> = Vec::new();
    let mut start: usize = 0;
    assert(line_views(out@) =~= Seq::<HexLine>::empty());
    loop
        invariant
            start <= n == b@.len(),
            after_lines(line_views(out@), hex_lines_from(b@, start as int, start as int)) == hex_lines_from(
                b@,
                0,
                0,
            ),
        decreases n - start,
    {
        let mut j = start;
        while j < n && b[j] != 0x0A
            invariant
                start <= j <= n == b@.len(),
                hex_lines_from(b@, start as int, start as int) == hex_lines_from(b@, start as int, j as int),
            decreases n - j,
        {
            j = j + 1;
        }
        let ghost pre = line_views(out@);
        let one = one_line_exec(b, start, j);
        let ghost mid = found_lines(one);
        match one {
            Err(e) => {
                return Err(e);
            },
            Ok(x) => {
                match x {
                    Some(l) => {
                        out.push(l);
                    },
                    None => {},
                }
            },
        }
        proof {
            assert(line_views(out@) =~= pre + mid);
            if j < n {
                match hex_lines_from(b@, j + 1, j + 1) {
                    Ok(rest) => {
                        assert(pre + (mid + rest) =~= (pre + mid) + rest);
                    },
                    Err(_) => {},
                }
            }
        }
        if j == n {
            proof {
                assert(line_views(out@) + Seq::<HexLine>::empty() =~= line_views(out@));
            }
            return Ok(out);
        }
        start = j + 1;
    }
}

proof fn lemma_insert_line(ls: Seq<HexLine>, x: HexLine, j: int)
    requires
        0 <= j <= ls.len(),
        forall|k: int| j <= k < ls.len() ==> (#[trigger] ls[k]).addr > x.addr,
        j == 0 || ls[j - 1].addr <= x.addr,
    ensures
        insert_line(ls, x) == ls.take(j) + seq![x] + ls.skip(j),
    decreases ls.len(),
{
    if ls.len() == 0 {
        assert(ls.take(j) + seq![x] + ls.skip(j) =~= seq![x]);
    } else if ls.last().addr <= x.addr {
        assert(ls.take(j) + seq![x] + ls.skip(j) =~= ls.push(x));
    } else {
        let d = ls.drop_last();
        assert forall|k: int| j <= k < d.len() implies (#[trigger] d[k]).addr > x.addr by {
            assert(d[k] == ls[k]);
        }
        lemma_insert_line(d, x, j);
        assert(d.take(j) + seq![x] + d.skip(j) + seq![ls.last()] =~= ls.take(j) + seq![x] + ls.skip(j));
    }
}

/// The lines sorted by address, lines with equal addresses kept in their order.
fn sort_by_addr(ls: Vec<ParsedLine>) -> (r: Vec<ParsedLine>)
    ensures
        line_views(r@) == sort_lines(line_views(ls@)),
{
    let ghost all = line_views(ls@);
    let mut rest = ls;
    let mut out: Vec<ParsedLine> = Vec::new();
    let ghost mut k: int = 0;
    assert(all.take(0) =~= Seq::<HexLine>::empty());
    assert(line_views(out@) =~= Seq::<HexLine>::empty());
    while rest.len() > 0
        invariant
            0 <= k <= all.len(),
            line_views(rest@) == all.skip(k),
            line_views(out@) == sort_lines(all.take(k)),
        decreases rest@.len(),
    {
        let ghost old_rest = rest@;
        assert(line_views(old_rest).len() == old_rest.len());
        assert(k < all.len());
        let x = rest.remove(0);
        let ghost xv = x@;
        assert(line_views(old_rest)[0] == old_rest[0]@);
        assert(all.skip(k)[0] == all[k]);
        assert(xv == all[k]);
        assert(line_views(rest@) =~= all.skip(k + 1)) by {
            assert(rest@ =~= old_rest.subrange(1, old_rest.len() as int));
            assert forall|m: int| 0 <= m < rest@.len() implies line_views(rest@)[m] == all.skip(k + 1)[m] by {
                assert(line_views(rest@)[m] == rest@[m]@);
                assert(line_views(old_rest)[m + 1] == old_rest[m + 1]@);
                assert(all.skip(k)[m + 1] == all[k + 1 + m]);
            }
        }
        let mut j = out.len();
        while j > 0 && out[j - 1].addr > x.addr
            invariant
                0 <= j <= out@.len(),
                forall|m: int| j <= m < out@.len() ==> (#[trigger] out@[m]).addr > x.addr,
            decreases j,
        {
            j = j - 1;
        }
        let ghost before = line_views(out@);
        proof {
            assert forall|m: int| j <= m < before.len() implies (#[trigger] before[m]).addr > xv.addr by {
                assert(before[m] == out@[m]@);
            }
            if j > 0 {
                assert(before[j - 1] == out@[j - 1]@);
            }
            lemma_insert_line(before, xv, j as int);
            assert(all.take(k + 1).drop_last() =~= all.take(k));
        }
        out.insert(j, x);
        proof {
            assert(line_views(out@) =~= before.take(j as int) + seq![xv] + before.skip(j as int));
            k = k + 1;
        }
    }
    assert(all.take(k) =~= all);
    out
}

/// The bytes covered by the sorted lines `ls`, which must cover exactly `len` bytes.
fn cover_exec(ls: &Vec<ParsedLine>, len: usize) -> (r: Result<Vec<u8>, HexError>)
    ensures
        match r {
            Ok(v) => cover(line_views(ls@), 0, 0, len as nat) == Ok::<Seq<u8>, HexFault>(v@),
            Err(e) => cover(line_views(ls@), 0, 0, len as nat) matches Err(f) && hex_reports(e, f),
        },
{
    let ghost vs = line_views(ls@);
    let mut out: Vec<u8> = Vec::new();
    let mut cursor: usize = 0;
    let mut i: usize = 0;
    assert(Seq::<u8>::empty() + Seq::<u8>::empty() =~= Seq::<u8>::empty());
    loop
        invariant
            i <= ls@.len() == vs.len(),
            vs == line_views(ls@),
            cursor <= len,
            out@.len() == cursor,
            after_bytes(out@, cover(vs, i as int, cursor as nat, len as nat)) == cover(vs, 0, 0, len as nat),
        decreases ls@.len() - i,
    {
        if i == ls.len() {
            if cursor != len {
                return Err(HexError::Covers(cursor, len));
            }
            assert(out@ + Seq::<u8>::empty() =~= out@);
            return Ok(out);
        }
        let ghost pre = out@;
        let l = &ls[i];
        assert(vs[i as int] == l@);
        if l.addr != cursor {
            return Err(HexError::Gap(cursor));
        }
        match l.run {
            Some(v) => {
                let end = if i + 1 < ls.len() {
                    ls[i + 1].addr
                } else {
                    len
                };
                if i + 1 < ls.len() {
                    assert(vs[i + 1] == ls@[i + 1]@);
                }
                if end <= cursor || end > len {
                    return Err(HexError::BadRun(cursor));
                }
                while out.len() < end
                    invariant
                        cursor <= out@.len() <= end,
                        out@ == pre + Seq::new((out@.len() - cursor) as nat, |m: int| v),
                        pre.len() == cursor,
                    decreases end - out@.len(),
                {
                    out.push(v);
                    assert(out@ =~= pre + Seq::new((out@.len() - cursor) as nat, |m: int| v));
                }
                proof {
                    match cover(vs, i + 1, end as nat, len as nat) {
                        Ok(rest) => {
                            assert(pre + (Seq::new((end - cursor) as nat, |m: int| v) + rest) =~= out@ + rest);
                        },
                        Err(_) => {},
                    }
                }
                cursor = end;
            },
            None => {
                if l.bytes.len() > len - cursor {
                    return Err(HexError::Overrun(cursor));
                }
                let mut m: usize = 0;
                while m < l.bytes.len()
                    invariant
                        m <= l.bytes@.len(),
                        out@ == pre + l.bytes@.take(m as int),
                    decreases l.bytes@.len() - m,
                {
                    out.push(l.bytes[m]);
                    assert(out@ =~= pre + l.bytes@.take(m + 1));
                    m = m + 1;
                }
                assert(l.bytes@.take(m as int) =~= l.bytes@);
                proof {
                    match cover(vs, i + 1, (cursor + l.bytes@.len()) as nat, len as nat) {
                        Ok(rest) => {
                            assert(pre + (l.bytes@ + rest) =~= out@ + rest);
                        },
                        Err(_) => {},
                    }
                }
                cursor = cursor + l.bytes.len();
            },
        }
        i = i + 1;
    }
}

/// Read an `addressed-hex` block covering exactly `len` bytes: lines `$ADDR: XX XX …` or
/// `$ADDR: XX...` (byte `XX` repeated up to the next line's address or the end), in any
/// order; together they must partition `[0, len)`.
pub fn parse_addressed_hex(text: &str, len: usize) -> (r: Result<Vec<u8>, HexError>)
    ensures
        match r {
            Ok(v) => parse_hex_spec(text.spec_bytes(), len as nat) == Ok::<Seq<u8>, HexFault>(v@) && v@.len()
                == len,
            Err(e) => parse_hex_spec(text.spec_bytes(), len as nat) matches Err(f) && hex_reports(e, f),
        },
{
    proof {
        lemma_hex_parse_len(text.spec_bytes(), len as nat);
    }
    let b = text.as_bytes();
    let lines = match read_hex_lines(b) {
        Err(e) => {
            return Err(e);
        },
        Ok(v) => v,
    };
    if lines.len() == 0 {
        return Err(HexError::NoLines);
    }
    let sorted = sort_by_addr(lines);
    cover_exec(&sorted, len)
}

} // verus!
