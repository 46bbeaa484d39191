//! Content-type detection. `convert` chooses its direction from this, never from the
//! file name.

use vstd::prelude::*;

use crate::bcd::{is_whitespace, is_ws, trim_bounds, trim_end_ws, trim_ws};
use crate::cp437::{self, cp437_byte, decode_seq};
use crate::header::{self, find_spec, opt_header_view, FileType, HeaderView, ParsedHeader};
use crate::registry::Device;
use crate::textbuf;

verus! {

#[derive(Clone, Copy, Debug, PartialEq, Eq, Structural)]
pub enum Content {
    /// A plain-text BASIC listing (`<digits><space>...` lines).
    AsciiBasic,
    /// Tokenized BASIC behind a CE-158 header (PC-1500 family).
    Ce158Basic,
    /// Tokenized BASIC behind a PC-1600 header.
    Pc1600Basic,
    /// Machine language behind a CE-158 header (PC-1500 family).
    Ce158Machine,
    /// Machine language behind a PC-1600 header.
    Pc1600Machine,
    /// Reserve Area (key-assignment layers), binary behind a CE-158 header or headerless
    /// SDAR ASCII text. PC-1500/1500A only.
    Ce158Reserve,
    /// Variables, binary behind a CE-158 header or headerless SDAV ASCII text.
    /// PC-1500/1500A only.
    Ce158Variables,
    /// Plain UTF-8 text that is not a BASIC listing or marker format; every character
    /// maps to the Sharp (CP437) set.
    Text,
    /// Anything else: binary data, or text with characters outside the Sharp set.
    Unknown,
}

pub open spec fn describe_spec(c: Content) -> Seq<char> {
    match c {
        Content::AsciiBasic => "ASCII BASIC"@,
        Content::Ce158Basic => "tokenized BASIC (CE-158 header)"@,
        Content::Pc1600Basic => "tokenized BASIC (PC-1600 header)"@,
        Content::Ce158Machine => "machine language (CE-158 header)"@,
        Content::Pc1600Machine => "machine language (PC-1600 header)"@,
        Content::Ce158Reserve => "Reserve Area (CE-158 header)"@,
        Content::Ce158Variables => "Variables (CE-158 header)"@,
        Content::Text => "text"@,
        Content::Unknown => "unrecognized content"@,
    }
}

impl Content {
    pub fn describe(self) -> (s: &'static str)
        ensures
            s@ == describe_spec(self),
    {
        match self {
            Content::AsciiBasic => "ASCII BASIC",
            Content::Ce158Basic => "tokenized BASIC (CE-158 header)",
            Content::Pc1600Basic => "tokenized BASIC (PC-1600 header)",
            Content::Ce158Machine => "machine language (CE-158 header)",
            Content::Pc1600Machine => "machine language (PC-1600 header)",
            Content::Ce158Reserve => "Reserve Area (CE-158 header)",
            Content::Ce158Variables => "Variables (CE-158 header)",
            Content::Text => "text",
            Content::Unknown => "unrecognized content",
        }
    }

    /// The tokenized-BASIC device, if this is a tokenized-BASIC kind.
    pub fn tokenized_device(self) -> (d: Option<Device>)
        ensures
            d == match self {
                Content::Ce158Basic => Some(Device::Pc1500),
                Content::Pc1600Basic => Some(Device::Pc1600),
                _ => None::<Device>,
            },
    {
        match self {
            Content::Ce158Basic => Some(Device::Pc1500),
            Content::Pc1600Basic => Some(Device::Pc1600),
            _ => None,
        }
    }
}

/// A control byte other than TAB, LF, CR and SUB: the data is binary.
pub open spec fn control_byte(b: u8) -> bool {
    b < 0x20 && b != 0x09 && b != 0x0A && b != 0x0D && b != 0x1A
}

pub open spec fn has_control(d: Seq<u8>) -> bool {
    exists|i: int| 0 <= i < d.len() && control_byte(#[trigger] d[i])
}

/// The pieces of `t` between `\n`s, from the piece starting at `start`, now at `i`.
pub open spec fn segments(t: Seq<char>, start: int, i: int) -> Seq<Seq<char>>
    decreases t.len() - i,
{
    if i >= t.len() || i < start || start < 0 {
        seq![t.subrange(start, t.len() as int)]
    } else if t[i] == '\n' {
        seq![t.subrange(start, i)] + segments(t, i + 1, i + 1)
    } else {
        segments(t, start, i + 1)
    }
}

/// The lines of `t` (a final empty piece is harmless: every use trims and skips blanks).
pub open spec fn lines_spec(t: Seq<char>) -> Seq<Seq<char>> {
    segments(t, 0, 0)
}

/// The first line that is not blank, trimmed.
pub open spec fn first_filled(ls: Seq<Seq<char>>) -> Option<Seq<char>>
    decreases ls.len(),
{
    if ls.len() == 0 {
        None
    } else if trim_ws(ls[0]).len() > 0 {
        Some(trim_ws(ls[0]))
    } else {
        first_filled(ls.drop_first())
    }
}

/// The first non-blank line of `d` as CP437 text, trimmed; `None` for binary data.
pub open spec fn first_line_spec(d: Seq<u8>) -> Option<Seq<char>> {
    if has_control(d) {
        None
    } else {
        first_filled(lines_spec(decode_seq(d)))
    }
}

pub open spec fn starts_with_chars(s: Seq<char>, p: Seq<char>) -> bool {
    p.len() <= s.len() && s.take(p.len() as int) == p
}

/// First line of an SDAR (Reserve Area) text file.
pub open spec fn reserve_marker() -> Seq<char> {
    "; sde-reserve:"@
}

/// First line of an SDAV (Variables) text file.
pub open spec fn variables_marker() -> Seq<char> {
    "; sde-variables:"@
}

/// Leading spaces and tabs removed.
pub open spec fn trim_indent(s: Seq<char>) -> Seq<char>
    decreases s.len(),
{
    if s.len() > 0 && (s[0] == ' ' || s[0] == '\t') {
        trim_indent(s.drop_first())
    } else {
        s
    }
}

pub open spec fn leading_digits(s: Seq<char>) -> nat
    decreases s.len(),
{
    if s.len() > 0 && '0' <= s[0] <= '9' {
        1 + leading_digits(s.drop_first())
    } else {
        0
    }
}

/// Most leading whitespace before a line number: device listings right-align line
/// numbers up to 65279, i.e. at most 4 spaces.
pub const MAX_LINE_INDENT: usize = 4;

/// A listing line: at most 4 spaces/tabs, a line number, exactly one space or tab, then
/// the statement. Deliberately strict: text wrongly taken for BASIC gets tokenized and is
/// destroyed, while a listing taken for text still loads.
pub open spec fn is_basic_line_spec(line: Seq<char>) -> bool {
    let body = trim_indent(line);
    let nd = leading_digits(body);
    &&& line.len() - body.len() <= 4
    &&& nd > 0
    &&& body.len() >= nd + 2
    &&& (body[nd as int] == ' ' || body[nd as int] == '\t')
    &&& !is_ws(body[(nd + 1) as int])
}

/// Counting the first five non-blank lines: how many there were, and how many are
/// listing lines.
pub open spec fn tally(ls: Seq<Seq<char>>, checked: nat, matched: nat) -> (nat, nat)
    decreases ls.len(),
{
    if ls.len() == 0 {
        (checked, matched)
    } else if trim_ws(ls[0]).len() == 0 {
        tally(ls.drop_first(), checked, matched)
    } else {
        let m = matched + if is_basic_line_spec(trim_end_ws(ls[0])) {
            1nat
        } else {
            0nat
        };
        if checked + 1 == 5 {
            ((checked + 1) as nat, m)
        } else {
            tally(ls.drop_first(), (checked + 1) as nat, m)
        }
    }
}

/// A BASIC listing: no binary bytes, and of the first five non-blank lines (up to an
/// end-of-file byte) at least three, or all if fewer, are listing lines.
pub open spec fn looks_like_ascii_basic_spec(d: Seq<u8>) -> bool {
    let (c, m) = tally(lines_spec(decode_seq(d.take(eof_index(d, 0)))), 0, 0);
    !has_control(d) && c > 0 && m >= if c < 3 {
        c
    } else {
        3
    }
}

/// A character host text may hold: TAB, LF, CR, SUB, or any printable one of the Sharp
/// set.
pub open spec fn text_char_ok(c: char) -> bool {
    if (c as u32) < 0x20 {
        c == '\t' || c == '\n' || c == '\r' || c == '\u{1A}'
    } else {
        cp437_byte(c) is Some
    }
}

/// Host text: valid UTF-8 (a leading BOM ignored), not blank, every character in the
/// Sharp set or one of TAB, LF, CR, SUB.
pub open spec fn looks_like_text_spec(d: Seq<u8>) -> bool {
    &&& vstd::utf8::valid_utf8(text_body(d))
    &&& trim_ws(vstd::utf8::decode_utf8(text_body(d))).len() > 0
    &&& forall|i: int|
        0 <= i < vstd::utf8::decode_utf8(text_body(d)).len() ==> text_char_ok(
            #[trigger] vstd::utf8::decode_utf8(text_body(d))[i],
        )
}

/// `d` without a leading UTF-8 byte-order mark.
pub open spec fn text_body(d: Seq<u8>) -> Seq<u8> {
    if d.len() >= 3 && d[0] == 0xEF && d[1] == 0xBB && d[2] == 0xBF {
        d.skip(3)
    } else {
        d
    }
}

pub open spec fn content_of_header(h: HeaderView) -> Content {
    match h.device {
        Device::Pc1500 => match h.file_type {
            FileType::Basic => Content::Ce158Basic,
            FileType::Machine => Content::Ce158Machine,
            FileType::Reserve => Content::Ce158Reserve,
            FileType::Variables => Content::Ce158Variables,
        },
        Device::Pc1600 => match h.file_type {
            FileType::Basic => Content::Pc1600Basic,
            _ => Content::Pc1600Machine,
        },
    }
}

/// What `data` holds, given the header found in it (if any).
pub open spec fn detect_spec(h: Option<HeaderView>, d: Seq<u8>) -> Content {
    match h {
        Some(h) => content_of_header(h),
        None => {
            let first = first_line_spec(d);
            if first matches Some(l) && starts_with_chars(l, reserve_marker()) {
                Content::Ce158Reserve
            } else if first matches Some(l) && starts_with_chars(l, variables_marker()) {
                Content::Ce158Variables
            } else if looks_like_ascii_basic_spec(d) {
                Content::AsciiBasic
            } else if looks_like_text_spec(d) {
                Content::Text
            } else {
                Content::Unknown
            }
        },
    }
}

pub fn detect(data: &[u8]) -> (c: Content)
    ensures
        c == detect_spec(find_spec(data@), data@),
{
    let h = header::find(data);
    proof {
        header::lemma_find_pc1600_kinds(data@, 0);
    }
    match &h {
        Some(p) => detect_from_header(Some(p), data),
        None => detect_from_header(None, data),
    }
}

/// As [`detect`], for a caller that has already located the header (or knows there is
/// none).
pub fn detect_from_header(header: Option<&ParsedHeader>, data: &[u8]) -> (c: Content)
    requires
        header matches Some(h) ==> (h.device == Device::Pc1600 ==> (h.file_type == FileType::Basic
            || h.file_type == FileType::Machine)),
    ensures
        c == detect_spec(
            match header {
                Some(h) => Some(h@),
                None => None,
            },
            data@,
        ),
{
    if let Some(h) = header {
        return match h.device {
            Device::Pc1500 => match h.file_type {
                FileType::Basic => Content::Ce158Basic,
                FileType::Machine => Content::Ce158Machine,
                FileType::Reserve => Content::Ce158Reserve,
                FileType::Variables => Content::Ce158Variables,
            },
            Device::Pc1600 => match h.file_type {
                FileType::Basic => Content::Pc1600Basic,
                _ => Content::Pc1600Machine,
            },
        };
    }
    let first = first_non_blank_line(data);
    let reserve: [char; 14] = [';', ' ', 's', 'd', 'e', '-', 'r', 'e', 's', 'e', 'r', 'v', 'e', ':'];
    let variables: [char; 16] = [
        ';',
        ' ',
        's',
        'd',
        'e',
        '-',
        'v',
        'a',
        'r',
        'i',
        'a',
        'b',
        'l',
        'e',
        's',
        ':',
    ];
    proof {
        reveal_strlit("; sde-reserve:");
        reveal_strlit("; sde-variables:");
        assert(reserve@ =~= reserve_marker());
        assert(variables@ =~= variables_marker());
    }
    match &first {
        Some(l) => {
            if chars_start_with(l, reserve.as_slice()) {
                return Content::Ce158Reserve;
            }
            if chars_start_with(l, variables.as_slice()) {
                return Content::Ce158Variables;
            }
        },
        None => {},
    }
    if looks_like_ascii_basic(data) {
        Content::AsciiBasic
    } else if looks_like_text(data) {
        Content::Text
    } else {
        Content::Unknown
    }
}

/// `s` starts with `p`.
pub fn chars_start_with(s: &Vec<char>, p: &[char]) -> (r: bool)
    ensures
        r == starts_with_chars(s@, p@),
{
    if p.len() > s.len() {
        return false;
    }
    let mut k: usize = 0;
    while k < p.len()
        invariant
            k <= p@.len() <= s@.len(),
            forall|j: int| 0 <= j < k ==> s@[j] == p@[j],
        decreases p.len() - k,
    {
        if s[k] != p[k] {
            assert(s@.take(p@.len() as int)[k as int] != p@[k as int]);
            return false;
        }
        k = k + 1;
    }
    assert(s@.take(p@.len() as int) =~= p@);
    true
}

/// `data` holds a control byte other than TAB, LF, CR, SUB.
fn has_control_byte(data: &[u8]) -> (r: bool)
    ensures
        r == has_control(data@),
{
    let mut i: usize = 0;
    while i < data.len()
        invariant
            i <= data@.len(),
            forall|j: int| 0 <= j < i ==> !control_byte(#[trigger] data@[j]),
        decreases data.len() - i,
    {
        let b = data[i];
        if b < 0x20 && b != 0x09 && b != 0x0A && b != 0x0D && b != 0x1A {
            assert(control_byte(data@[i as int]));
            return true;
        }
        i = i + 1;
    }
    false
}

/// The lines of `t`, as character vectors.
pub fn split_lines(t: &Vec<char>) -> (ls: Vec<Vec<char>>)
    ensures
        ls@.len() == lines_spec(t@).len(),
        forall|i: int| 0 <= i < ls@.len() ==> (#[trigger] ls@[i])@ == lines_spec(t@)[i],
{
    let mut ls: Vec<Vec<char>> = Vec::new();
    let mut cur: Vec<char> = Vec::new();
    let mut start: usize = 0;
    let mut i: usize = 0;
    while i < t.len()
        invariant
            start <= i <= t@.len(),
            cur@ == t@.subrange(start as int, i as int),
            Seq::new(ls@.len(), |k: int| ls@[k]@) + segments(t@, start as int, i as int) == lines_spec(t@),
        decreases t.len() - i,
    {
        let ghost done = Seq::new(ls@.len(), |k: int| ls@[k]@);
        if t[i] == '\n' {
            let ghost s0 = start;
            let ghost i0 = i;
            let piece = cur;
            ls.push(piece);
            cur = Vec::new();
            i = i + 1;
            start = i;
            proof {
                let done2 = Seq::new(ls@.len(), |k: int| ls@[k]@);
                assert(done2 =~= done.push(t@.subrange(s0 as int, i0 as int)));
                assert(cur@ =~= t@.subrange(start as int, i as int));
                assert(done2 + segments(t@, start as int, i as int) =~= done + segments(
                    t@,
                    s0 as int,
                    i0 as int,
                ));
            }
        } else {
            cur.push(t[i]);
            i = i + 1;
            assert(cur@ =~= t@.subrange(start as int, i as int));
        }
    }
    let ghost done = Seq::new(ls@.len(), |k: int| ls@[k]@);
    ls.push(cur);
    proof {
        let done2 = Seq::new(ls@.len(), |k: int| ls@[k]@);
        assert(done2 =~= done + segments(t@, start as int, i as int));
    }
    ls
}

/// `v[from..to]` as a new vector.
pub fn sub_chars(v: &Vec<char>, from: usize, to: usize) -> (r: Vec<char>)
    requires
        from <= to <= v@.len(),
    ensures
        r@ == v@.subrange(from as int, to as int),
{
    let mut r: Vec<char> = Vec::new();
    let mut k = from;
    while k < to
        invariant
            from <= k <= to <= v@.len(),
            r@ == v@.subrange(from as int, k as int),
        decreases to - k,
    {
        r.push(v[k]);
        k = k + 1;
        assert(r@ =~= v@.subrange(from as int, k as int));
    }
    r
}

/// End of `v` without its trailing white space.
pub fn trim_end_bound(v: &Vec<char>) -> (r: usize)
    ensures
        r <= v@.len(),
        v@.subrange(0, r as int) == trim_end_ws(v@),
{
    let mut b = v.len();
    assert(v@.subrange(0, b as int) =~= v@);
    while b > 0 && is_whitespace(v[b - 1])
        invariant
            b <= v@.len(),
            trim_end_ws(v@) == trim_end_ws(v@.subrange(0, b as int)),
        decreases b,
    {
        assert(v@.subrange(0, b as int).drop_last() =~= v@.subrange(0, b - 1));
        b = b - 1;
    }
    b
}

/// The decoded lines of `data`.
fn lines_of(data: &[u8]) -> (ls: Vec<Vec<char>>)
    ensures
        ls@.len() == lines_spec(decode_seq(data@)).len(),
        forall|i: int| 0 <= i < ls@.len() ==> (#[trigger] ls@[i])@ == lines_spec(decode_seq(data@))[i],
{
    let text = cp437::decode(data);
    let chars = textbuf::chars_of(text.as_str());
    split_lines(&chars)
}

/// The first non-blank line, trimmed; `None` for binary data.
pub fn first_non_blank_line(data: &[u8]) -> (r: Option<Vec<char>>)
    ensures
        match r {
            Some(l) => first_line_spec(data@) == Some(l@),
            None => first_line_spec(data@) is None,
        },
{
    if has_control_byte(data) {
        return None;
    }
    let ls = lines_of(data);
    let ghost lines = lines_spec(decode_seq(data@));
    let ghost lv = Seq::new(ls@.len(), |k: int| ls@[k]@);
    assert(lv =~= lines);
    let mut k: usize = 0;
    assert(lines.skip(0) =~= lines);
    while k < ls.len()
        invariant
            k <= ls@.len() == lines.len(),
            forall|i: int| 0 <= i < ls@.len() ==> (#[trigger] ls@[i])@ == lines[i],
            first_filled(lines) == first_filled(lines.skip(k as int)),
            !has_control(data@),
            lines == lines_spec(decode_seq(data@)),
        decreases ls.len() - k,
    {
        let (a, b) = trim_bounds(&ls[k]);
        assert(lines.skip(k as int)[0] == lines[k as int]);
        if b > a {
            let r = sub_chars(&ls[k], a, b);
            assert(ls@[k as int]@ == lines[k as int]);
            assert(r@ == trim_ws(lines.skip(k as int)[0]));
            assert(first_filled(lines.skip(k as int)) == Some(r@));
            return Some(r);
        }
        assert(lines.skip(k as int).drop_first() =~= lines.skip(k + 1));
        k = k + 1;
    }
    None
}

/// Index of the first end-of-file byte at or after `i`, else the length.
pub open spec fn eof_index(d: Seq<u8>, i: int) -> int
    decreases d.len() - i,
{
    if i < 0 || i >= d.len() {
        d.len() as int
    } else if d[i] == 0x1A {
        i
    } else {
        eof_index(d, i + 1)
    }
}

/// A listing line (see [`is_basic_line_spec`]).
#[verifier::rlimit(40)]
pub fn is_basic_line(line: &Vec<char>) -> (r: bool)
    ensures
        r == is_basic_line_spec(line@),
{
    let n = line.len();
    let mut k: usize = 0;
    assert(line@.skip(0) =~= line@);
    while k < n && (line[k] == ' ' || line[k] == '\t')
        invariant
            k <= n == line@.len(),
            trim_indent(line@) == trim_indent(line@.skip(k as int)),
        decreases n - k,
    {
        assert(line@.skip(k as int).drop_first() =~= line@.skip(k + 1));
        k = k + 1;
    }
    let ghost body = line@.skip(k as int);
    assert(trim_indent(body) == body);
    if k > MAX_LINE_INDENT {
        return false;
    }
    let mut j = k;
    while j < n && line[j] >= '0' && line[j] <= '9'
        invariant
            k <= j <= n == line@.len(),
            body == line@.skip(k as int),
            leading_digits(body) == (j - k) + leading_digits(line@.skip(j as int)),
        decreases n - j,
    {
        assert(line@.skip(j as int).drop_first() =~= line@.skip(j + 1));
        j = j + 1;
    }
    assert(leading_digits(line@.skip(j as int)) == 0);
    if j == k {
        return false;
    }
    if n - j < 2 {
        return false;
    }
    assert(body[(j - k) as int] == line@[j as int]);
    assert(body[(j - k + 1) as int] == line@[j + 1]);
    (line[j] == ' ' || line[j] == '\t') && !is_whitespace(line[j + 1])
}

pub open spec fn min3(c: nat) -> nat {
    if c < 3 {
        c
    } else {
        3
    }
}

fn looks_like_ascii_basic(data: &[u8]) -> (r: bool)
    ensures
        r == looks_like_ascii_basic_spec(data@),
{
    if has_control_byte(data) {
        return false;
    }
    let e = eof_at(data);
    let cut = vstd::slice::slice_subrange(data, 0, e);
    assert(cut@ =~= data@.take(eof_index(data@, 0)));
    let ls = lines_of(cut);
    let ghost lines = lines_spec(decode_seq(cut@));
    let mut checked: usize = 0;
    let mut matched: usize = 0;
    let mut k: usize = 0;
    assert(lines.skip(0) =~= lines);
    while k < ls.len()
        invariant
            k <= ls@.len() == lines.len(),
            forall|i: int| 0 <= i < ls@.len() ==> (#[trigger] ls@[i])@ == lines[i],
            checked < 5,
            matched <= checked,
            !has_control(data@),
            lines == lines_spec(decode_seq(data@.take(eof_index(data@, 0)))),
            tally(lines, 0, 0) == tally(lines.skip(k as int), checked as nat, matched as nat),
        decreases ls.len() - k,
    {
        assert(lines.skip(k as int)[0] == lines[k as int]);
        assert(lines.skip(k as int).drop_first() =~= lines.skip(k + 1));
        let (a, b) = trim_bounds(&ls[k]);
        if b > a {
            let te = trim_end_bound(&ls[k]);
            let line = sub_chars(&ls[k], 0, te);
            assert(ls@[k as int]@ == lines[k as int]);
            assert(line@ == trim_end_ws(lines[k as int]));
            assert(trim_ws(lines[k as int]).len() > 0);
            if is_basic_line(&line) {
                matched = matched + 1;
            }
            checked = checked + 1;
            if checked == 5 {
                return matched >= 3;
            }
        }
        k = k + 1;
    }
    checked > 0 && matched >= if checked < 3 {
        checked
    } else {
        3
    }
}

/// Index of the first end-of-file byte, else the length.
fn eof_at(data: &[u8]) -> (r: usize)
    ensures
        r == eof_index(data@, 0),
        r <= data@.len(),
{
    let mut i: usize = 0;
    while i < data.len()
        invariant
            i <= data@.len(),
            eof_index(data@, 0) == eof_index(data@, i as int),
        decreases data.len() - i,
    {
        if data[i] == 0x1A {
            return i;
        }
        i = i + 1;
    }
    i
}

/// A character host text may hold.
fn text_char_allowed(c: char) -> (r: bool)
    ensures
        r == text_char_ok(c),
{
    if (c as u32) < 0x20 {
        c == '\t' || c == '\n' || c == '\r' || c == '\u{1A}'
    } else {
        cp437::to_byte(c).is_some()
    }
}

/// Host text: valid UTF-8 (an optional BOM is ignored), not blank, no control bytes other
/// than TAB/LF/CR/SUB, and every character representable in the Sharp (CP437) set.
pub fn looks_like_text(data: &[u8]) -> (r: bool)
    ensures
        r == looks_like_text_spec(data@),
{
    let body = if data.len() >= 3 && data[0] == 0xEF && data[1] == 0xBB && data[2] == 0xBF {
        vstd::slice::slice_subrange(data, 3, data.len())
    } else {
        data
    };
    assert(data.len() >= 3 && data@[0] == 0xEF && data@[1] == 0xBB && data@[2] == 0xBF ==> body@ =~= data@.skip(3));
    let text = match textbuf::str_from_utf8(body) {
        Ok(t) => t,
        Err(_) => {
            return false;
        },
    };
    let chars = textbuf::chars_of(text);
    let ghost sbody = text_body(data@);
    assert(sbody == body@);
    let (a, b) = trim_bounds(&chars);
    if a == b {
        return false;
    }
    let mut i: usize = 0;
    while i < chars.len()
        invariant
            i <= chars@.len(),
            chars@ == vstd::utf8::decode_utf8(sbody),
            vstd::utf8::valid_utf8(sbody),
            trim_ws(chars@).len() > 0,
            sbody == text_body(data@),
            forall|j: int| 0 <= j < i ==> text_char_ok(#[trigger] chars@[j]),
        decreases chars.len() - i,
    {
        if !text_char_allowed(chars[i]) {
            assert(!text_char_ok(vstd::utf8::decode_utf8(text_body(data@))[i as int]));
            return false;
        }
        i = i + 1;
    }
    true
}

} // verus!
