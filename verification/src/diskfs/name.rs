//! 8.3 file names and DOS-style wildcard patterns as stored in a directory entry.

use vstd::prelude::*;
use vstd::string::StringSliceAdditionalSpecFns;

use super::DiskError;
use crate::cp437::{self, decode_seq};
use crate::textbuf;

verus! {

/// Upper-case an ASCII letter byte.
pub open spec fn upper_byte(c: u8) -> u8 {
    if 0x61 <= c && c <= 0x7A {
        (c - 32) as u8
    } else {
        c
    }
}

/// Characters allowed in a stored name besides `A-Z` and `0-9` (MS-DOS's set, minus
/// anything the PC-1600's `"X:NAME.EXT"` syntax would trip over):
/// ``!#$%&'()-@^_`{}~``.
pub open spec fn is_extra_char(c: u8) -> bool {
    c == 0x21 || c == 0x23 || c == 0x24 || c == 0x25 || c == 0x26 || c == 0x27 || c == 0x28
        || c == 0x29 || c == 0x2D || c == 0x40 || c == 0x5E || c == 0x5F || c == 0x60 || c == 0x7B
        || c == 0x7D || c == 0x7E
}

/// A byte allowed in a stored (upper-cased) name.
pub open spec fn name_byte_ok(c: u8) -> bool {
    (0x41 <= c && c <= 0x5A) || (0x30 <= c && c <= 0x39) || is_extra_char(c)
}

pub fn to_upper_byte(c: u8) -> (r: u8)
    ensures
        r == upper_byte(c),
{
    if c >= 0x61 && c <= 0x7A {
        c - 32
    } else {
        c
    }
}

pub fn name_byte_allowed(c: u8) -> (r: bool)
    ensures
        r == name_byte_ok(c),
{
    (c >= 0x41 && c <= 0x5A) || (c >= 0x30 && c <= 0x39) || c == 0x21 || c == 0x23 || c == 0x24
        || c == 0x25 || c == 0x26 || c == 0x27 || c == 0x28 || c == 0x29 || c == 0x2D || c == 0x40
        || c == 0x5E || c == 0x5F || c == 0x60 || c == 0x7B || c == 0x7D || c == 0x7E
}

/// Index of the last `.` (byte `2E`).
pub open spec fn last_dot(b: Seq<u8>) -> Option<int>
    decreases b.len(),
{
    if b.len() == 0 {
        None
    } else if b.last() == 0x2E {
        Some(b.len() - 1)
    } else {
        last_dot(b.drop_last())
    }
}

/// `(stem, ext)` around the last `.` (`str::rsplit_once('.')`), or the whole text.
pub open spec fn split_name(b: Seq<u8>) -> (Seq<u8>, Seq<u8>) {
    match last_dot(b) {
        Some(i) => (b.take(i), b.skip(i + 1)),
        None => (b, Seq::empty()),
    }
}

pub open spec fn spaces(n: nat) -> Seq<u8> {
    Seq::new(n, |i: int| 0x20u8)
}

/// A name part upper-cased and space-padded to `width`, if every byte is allowed.
pub open spec fn name_part(src: Seq<u8>, width: nat) -> Option<Seq<u8>> {
    let up = src.map_values(|c: u8| upper_byte(c));
    if forall|i: int| 0 <= i < up.len() ==> name_byte_ok(#[trigger] up[i]) {
        Some(up + spaces((width - up.len()) as nat))
    } else {
        None
    }
}

/// The 11 stored bytes for the text `b` of a name, `None` if it is no valid 8.3 name.
pub open spec fn parse_name_spec(b: Seq<u8>) -> Option<Seq<u8>> {
    let (stem, ext) = split_name(b);
    if stem.len() == 0 || stem.len() > 8 || ext.len() > 3 {
        None
    } else {
        match (name_part(stem, 8), name_part(ext, 3)) {
            (Some(s), Some(e)) => Some(s + e),
            _ => None,
        }
    }
}

/// A file name as stored in a directory entry: 8 + 3 bytes, upper-case, space-padded.
#[derive(Clone, Copy, Debug, PartialEq, Eq, Hash)]
pub struct FileName {
    stem: [u8; 8],
    ext: [u8; 3],
}

impl View for FileName {
    type V = Seq<u8>;

    /// The 11 bytes as stored.
    closed spec fn view(&self) -> Seq<u8> {
        self.stem@ + self.ext@
    }
}

/// Text with trailing spaces removed.
pub open spec fn trim_spaces(cs: Seq<char>) -> Seq<char>
    decreases cs.len(),
{
    if cs.len() > 0 && cs.last() == ' ' {
        trim_spaces(cs.drop_last())
    } else {
        cs
    }
}

/// The printed form of stored name bytes: `STEM` or `STEM.EXT`.
pub open spec fn name_text(raw: Seq<u8>) -> Seq<char> {
    let stem = trim_spaces(decode_seq(raw.take(8)));
    let ext = trim_spaces(decode_seq(raw.skip(8)));
    if ext.len() == 0 {
        stem
    } else {
        stem + seq!['.'] + ext
    }
}

/// Decoded text of `b` without trailing spaces.
fn trim(b: &[u8]) -> (s: String)
    ensures
        s@ == trim_spaces(decode_seq(b@)),
{
    let decoded = cp437::decode(b);
    let chars = textbuf::chars_of(decoded.as_str());
    let mut end = chars.len();
    assert(chars@.take(end as int) =~= chars@);
    while end > 0 && chars[end - 1] == ' '
        invariant
            end <= chars@.len(),
            trim_spaces(chars@.take(end as int)) == trim_spaces(decode_seq(b@)),
        decreases end,
    {
        assert(chars@.take(end as int).drop_last() =~= chars@.take(end - 1));
        end = end - 1;
    }
    let mut s = String::new();
    textbuf::push_chars(&mut s, chars.as_slice(), 0, end);
    assert(s@ =~= chars@.take(end as int));
    s
}

/// Position of the last `.` in `b`.
fn find_last_dot(b: &[u8]) -> (r: Option<usize>)
    ensures
        match r {
            Some(i) => last_dot(b@) == Some(i as int) && i < b.len(),
            None => last_dot(b@) is None,
        },
{
    let mut i = b.len();
    assert(b@.take(i as int) =~= b@);
    while i > 0
        invariant
            i <= b@.len(),
            last_dot(b@) == last_dot(b@.take(i as int)),
        decreases i,
    {
        if b[i - 1] == 0x2E {
            return Some(i - 1);
        }
        assert(b@.take(i as int).drop_last() =~= b@.take(i - 1));
        i = i - 1;
    }
    None
}

/// Upper-case and validate `b[from..to]` into a space-padded field of `width` bytes.
fn fill_part(b: &[u8], from: usize, to: usize, width: usize) -> (r: Option<Vec<u8>>)
    requires
        from <= to <= b@.len(),
        to - from <= width,
    ensures
        match r {
            Some(v) => name_part(b@.subrange(from as int, to as int), width as nat) == Some(v@),
            None => name_part(b@.subrange(from as int, to as int), width as nat) is None,
        },
{
    let ghost src = b@.subrange(from as int, to as int);
    let ghost up = src.map_values(|c: u8| upper_byte(c));
    let mut out: Vec<u8> = Vec::new();
    let mut i = from;
    while i < to
        invariant
            from <= i <= to <= b@.len(),
            src == b@.subrange(from as int, to as int),
            up == src.map_values(|c: u8| upper_byte(c)),
            out@ == up.take(i - from),
            forall|k: int| 0 <= k < i - from ==> name_byte_ok(#[trigger] up[k]),
        decreases to - i,
    {
        let c = to_upper_byte(b[i]);
        if !name_byte_allowed(c) {
            assert(up[i - from] == c);
            return None;
        }
        out.push(c);
        i = i + 1;
        assert(out@ =~= up.take(i - from));
    }
    assert(up.take(to - from) =~= up);
    while out.len() < width
        invariant
            out@.len() <= width,
            up.len() <= width,
            up.len() <= out@.len(),
            out@ == up + spaces((out@.len() - up.len()) as nat),
        decreases width - out.len(),
    {
        out.push(0x20u8);
        assert(out@ =~= up + spaces((out@.len() - up.len()) as nat));
    }
    Some(out)
}

impl FileName {
    /// Parse `NAME` or `NAME.EXT` (case-insensitive; stored upper-case). The stem must be
    /// 1–8 characters, the extension 0–3, all from the allowed set.
    pub fn parse(s: &str) -> (r: Result<FileName, DiskError>)
        ensures
            match r {
                Ok(n) => parse_name_spec(s.spec_bytes()) == Some(n@),
                Err(e) => parse_name_spec(s.spec_bytes()) is None && e is BadName,
            },
    {
        let b = s.as_bytes();
        let (stem_end, ext_start) = match find_last_dot(b) {
            Some(i) => (i, i + 1),
            None => (b.len(), b.len()),
        };
        proof {
            let (st, ex) = split_name(b@);
            assert(st =~= b@.subrange(0, stem_end as int));
            assert(ex =~= b@.subrange(ext_start as int, b@.len() as int));
        }
        if stem_end == 0 {
            return Err(DiskError::BadName(bad_name_message(s, "empty name")));
        }
        if stem_end > 8 {
            return Err(DiskError::BadName(bad_name_message(s, "name longer than 8 characters")));
        }
        if b.len() - ext_start > 3 {
            return Err(
                DiskError::BadName(bad_name_message(s, "extension longer than 3 characters")),
            );
        }
        let stem = match fill_part(b, 0, stem_end, 8) {
            Some(v) => v,
            None => {
                return Err(DiskError::BadName(bad_name_message(s, "character not allowed")));
            },
        };
        let ext = match fill_part(b, ext_start, b.len(), 3) {
            Some(v) => v,
            None => {
                return Err(DiskError::BadName(bad_name_message(s, "character not allowed")));
            },
        };
        let mut name = FileName { stem: [0x20u8; 8], ext: [0x20u8; 3] };
        let mut k: usize = 0;
        while k < 8
            invariant
                k <= 8,
                stem@.len() == 8,
                forall|j: int| 0 <= j < k ==> name.stem@[j] == stem@[j],
            decreases 8 - k,
        {
            name.stem[k] = stem[k];
            k = k + 1;
        }
        let mut k: usize = 0;
        while k < 3
            invariant
                k <= 3,
                ext@.len() == 3,
                forall|j: int| 0 <= j < 8 ==> name.stem@[j] == stem@[j],
                forall|j: int| 0 <= j < k ==> name.ext@[j] == ext@[j],
            decreases 3 - k,
        {
            name.ext[k] = ext[k];
            k = k + 1;
        }
        assert(name.stem@ =~= stem@);
        assert(name.ext@ =~= ext@);
        Ok(name)
    }

    /// From the 11 raw bytes of a directory entry (not validated: whatever the ROM wrote).
    pub fn from_raw(raw: &[u8]) -> (n: FileName)
        requires
            raw@.len() >= 11,
        ensures
            n@ == raw@.take(11),
    {
        let mut name = FileName { stem: [0x20u8; 8], ext: [0x20u8; 3] };
        let mut k: usize = 0;
        while k < 8
            invariant
                k <= 8,
                raw@.len() >= 11,
                forall|j: int| 0 <= j < k ==> name.stem@[j] == raw@[j],
            decreases 8 - k,
        {
            name.stem[k] = raw[k];
            k = k + 1;
        }
        let mut k: usize = 0;
        while k < 3
            invariant
                k <= 3,
                raw@.len() >= 11,
                forall|j: int| 0 <= j < 8 ==> name.stem@[j] == raw@[j],
                forall|j: int| 0 <= j < k ==> name.ext@[j] == raw@[8 + j],
            decreases 3 - k,
        {
            name.ext[k] = raw[8 + k];
            k = k + 1;
        }
        assert(name@ =~= raw@.take(11));
        name
    }

    /// The 11 stored bytes.
    pub fn raw(&self) -> (r: [u8; 11])
        ensures
            r@ == self@,
    {
        let mut out = [0u8; 11];
        let mut k: usize = 0;
        while k < 8
            invariant
                k <= 8,
                forall|j: int| 0 <= j < k ==> out@[j] == self.stem@[j],
            decreases 8 - k,
        {
            out[k] = self.stem[k];
            k = k + 1;
        }
        let mut k: usize = 0;
        while k < 3
            invariant
                k <= 3,
                forall|j: int| 0 <= j < 8 ==> out@[j] == self.stem@[j],
                forall|j: int| 0 <= j < k ==> out@[8 + j] == self.ext@[j],
            decreases 3 - k,
        {
            out[8 + k] = self.ext[k];
            k = k + 1;
        }
        assert(out@ =~= self@);
        out
    }

    /// The name part, trailing spaces removed.
    pub fn stem(&self) -> (s: String)
        ensures
            s@ == trim_spaces(decode_seq(self@.take(8))),
    {
        assert(self.stem@ =~= self@.take(8));
        trim(&self.stem)
    }

    /// The extension, trailing spaces removed.
    pub fn ext(&self) -> (s: String)
        ensures
            s@ == trim_spaces(decode_seq(self@.skip(8))),
    {
        assert(self.ext@ =~= self@.skip(8));
        trim(&self.ext)
    }

    /// `STEM` or `STEM.EXT`, as the PC-1600 prints it.
    pub fn to_text(&self) -> (s: String)
        ensures
            s@ == name_text(self@),
    {
        let mut s = self.stem();
        let e = self.ext();
        let ec = textbuf::chars_of(e.as_str());
        if ec.len() > 0 {
            textbuf::push_char(&mut s, '.');
            textbuf::push_str(&mut s, e.as_str());
        }
        s
    }

    /// Two names are the same stored name.
    pub fn same(&self, other: &FileName) -> (r: bool)
        ensures
            r == (self@ == other@),
    {
        let a = self.raw();
        let b = other.raw();
        let mut k: usize = 0;
        while k < 11
            invariant
                k <= 11,
                a@ == self@,
                b@ == other@,
                forall|j: int| 0 <= j < k ==> a@[j] == b@[j],
            decreases 11 - k,
        {
            if a[k] != b[k] {
                return false;
            }
            k = k + 1;
        }
        assert(a@ =~= b@);
        true
    }
}

/// `"<text>": <why>`.
fn bad_name_message(s: &str, why: &str) -> (m: String)
    ensures
        m@ == seq!['"'] + s@ + seq!['"', ':', ' '] + why@,
{
    let mut m = String::new();
    textbuf::push_char(&mut m, '"');
    textbuf::push_str(&mut m, s);
    textbuf::push_char(&mut m, '"');
    textbuf::push_char(&mut m, ':');
    textbuf::push_char(&mut m, ' ');
    textbuf::push_str(&mut m, why);
    m
}

// ── patterns ────────────────────────────────────────────────────────────

/// A pattern field filled from `src` after `acc`: `*` fills the rest with `?`, and any
/// character once the field is full is an error.
pub open spec fn fill_pattern(src: Seq<u8>, acc: Seq<u8>, width: nat) -> Option<Seq<u8>>
    decreases src.len(),
{
    if src.len() == 0 {
        Some(acc + spaces((width - acc.len()) as nat))
    } else if acc.len() >= width {
        None
    } else {
        let c = upper_byte(src[0]);
        if c == 0x2A {
            fill_pattern(src.drop_first(), acc + Seq::new((width - acc.len()) as nat, |i: int| 0x3Fu8), width)
        } else if !(c == 0x3F || name_byte_ok(c)) {
            None
        } else {
            fill_pattern(src.drop_first(), acc.push(c), width)
        }
    }
}

/// `(stem, ext)` of a pattern text: around the last `.`, `*` alone meaning `*.*`.
pub open spec fn split_pattern(b: Seq<u8>) -> (Seq<u8>, Seq<u8>) {
    match last_dot(b) {
        Some(i) => (b.take(i), b.skip(i + 1)),
        None => if b == seq![0x2Au8] {
            (seq![0x2Au8], seq![0x2Au8])
        } else {
            (b, Seq::empty())
        },
    }
}

/// The 11 pattern bytes of the text `b`, `None` if it is no valid pattern.
pub open spec fn parse_pattern_spec(b: Seq<u8>) -> Option<Seq<u8>> {
    let (stem, ext) = split_pattern(b);
    match (fill_pattern(stem, Seq::empty(), 8), fill_pattern(ext, Seq::empty(), 3)) {
        (Some(s), Some(e)) => if s == spaces(8) {
            None
        } else {
            Some(s + e)
        },
        _ => None,
    }
}

/// Pattern bytes `p` match stored name bytes `raw`: `?` matches any byte.
pub open spec fn pattern_matches(p: Seq<u8>, raw: Seq<u8>) -> bool {
    forall|i: int| 0 <= i < 11 ==> p[i] == 0x3F || p[i] == raw[i]
}

/// A DOS-style name pattern: `*` matches the rest of the name or extension part, `?` one
/// character (or the padding after a short name). `*` alone means every file; a pattern
/// without `.` only matches names without an extension.
#[derive(Clone, Debug, PartialEq, Eq)]
pub struct Pattern {
    stem: [u8; 8],
    ext: [u8; 3],
}

impl View for Pattern {
    type V = Seq<u8>;

    closed spec fn view(&self) -> Seq<u8> {
        self.stem@ + self.ext@
    }
}

fn fill_pattern_exec(b: &[u8], from: usize, to: usize, width: usize) -> (r: Option<Vec<u8>>)
    requires
        from <= to <= b@.len(),
        width <= 8,
    ensures
        match r {
            Some(v) => fill_pattern(b@.subrange(from as int, to as int), Seq::empty(), width as nat)
                == Some(v@) && v@.len() == width,
            None => fill_pattern(b@.subrange(from as int, to as int), Seq::empty(), width as nat)
                is None,
        },
{
    let mut acc: Vec<u8> = Vec::new();
    let mut i = from;
    assert(b@.subrange(from as int, to as int) =~= b@.subrange(i as int, to as int));
    while i < to
        invariant
            from <= i <= to <= b@.len(),
            acc@.len() <= width <= 8,
            fill_pattern(b@.subrange(from as int, to as int), Seq::empty(), width as nat)
                == fill_pattern(b@.subrange(i as int, to as int), acc@, width as nat),
        decreases to - i,
    {
        if acc.len() >= width {
            return None;
        }
        assert(b@.subrange(i as int, to as int).drop_first() =~= b@.subrange(i + 1, to as int));
        let c = to_upper_byte(b[i]);
        if c == 0x2A {
            let ghost before = acc@;
            while acc.len() < width
                invariant
                    before.len() <= acc@.len() <= width,
                    acc@ == before + Seq::new((acc@.len() - before.len()) as nat, |k: int| 0x3Fu8),
                decreases width - acc.len(),
            {
                acc.push(0x3Fu8);
                assert(acc@ =~= before + Seq::new((acc@.len() - before.len()) as nat, |k: int| 0x3Fu8));
            }
        } else if !(c == 0x3F || name_byte_allowed(c)) {
            return None;
        } else {
            acc.push(c);
        }
        i = i + 1;
    }
    let ghost before = acc@;
    while acc.len() < width
        invariant
            before.len() <= acc@.len() <= width,
            acc@ == before + spaces((acc@.len() - before.len()) as nat),
        decreases width - acc.len(),
    {
        acc.push(0x20u8);
        assert(acc@ =~= before + spaces((acc@.len() - before.len()) as nat));
    }
    Some(acc)
}

impl Pattern {
    pub fn parse(s: &str) -> (r: Result<Pattern, DiskError>)
        ensures
            match r {
                Ok(p) => parse_pattern_spec(s.spec_bytes()) == Some(p@),
                Err(e) => parse_pattern_spec(s.spec_bytes()) is None && e is BadName,
            },
    {
        let b = s.as_bytes();
        let star: [u8; 1] = [0x2Au8];
        let (stem_v, ext_v) = match find_last_dot(b) {
            Some(i) => {
                assert(b@.take(i as int) =~= b@.subrange(0, i as int));
                assert(b@.skip(i + 1) =~= b@.subrange(i + 1, b@.len() as int));
                (fill_pattern_exec(b, 0, i, 8), fill_pattern_exec(b, i + 1, b.len(), 3))
            },
            None => {
                if b.len() == 1 && b[0] == 0x2A {
                    assert(b@ =~= seq![0x2Au8]);
                    assert(star@ =~= seq![0x2Au8]);
                    assert(star@.subrange(0, 1) =~= seq![0x2Au8]);
                    (fill_pattern_exec(&star, 0, 1, 8), fill_pattern_exec(&star, 0, 1, 3))
                } else {
                    assert(b@ != seq![0x2Au8]);
                    assert(b@.subrange(0, b@.len() as int) =~= b@);
                    assert(b@.subrange(b@.len() as int, b@.len() as int) =~= Seq::<u8>::empty());
                    (fill_pattern_exec(b, 0, b.len(), 8), fill_pattern_exec(b, b.len(), b.len(), 3))
                }
            },
        };
        let (stem, ext) = match (stem_v, ext_v) {
            (Some(a), Some(e)) => (a, e),
            _ => {
                return Err(DiskError::BadName(bad_name_message(s, "invalid pattern")));
            },
        };
        let mut p = Pattern { stem: [0x20u8; 8], ext: [0x20u8; 3] };
        let mut all_space = true;
        let mut k: usize = 0;
        while k < 8
            invariant
                k <= 8,
                stem@.len() == 8,
                forall|j: int| 0 <= j < k ==> p.stem@[j] == stem@[j],
                all_space == forall|j: int| 0 <= j < k ==> stem@[j] == 0x20,
            decreases 8 - k,
        {
            p.stem[k] = stem[k];
            if stem[k] != 0x20 {
                all_space = false;
            }
            k = k + 1;
        }
        if all_space {
            assert(stem@ =~= spaces(8));
            return Err(DiskError::BadName(bad_name_message(s, "empty name")));
        }
        assert(stem@ != spaces(8)) by {
            if stem@ == spaces(8) {
                assert(forall|j: int| 0 <= j < 8 ==> stem@[j] == 0x20);
            }
        }
        let mut k: usize = 0;
        while k < 3
            invariant
                k <= 3,
                ext@.len() == 3,
                stem@.len() == 8,
                forall|j: int| 0 <= j < 8 ==> p.stem@[j] == stem@[j],
                forall|j: int| 0 <= j < k ==> p.ext@[j] == ext@[j],
            decreases 3 - k,
        {
            p.ext[k] = ext[k];
            k = k + 1;
        }
        assert(p.stem@ =~= stem@);
        assert(p.ext@ =~= ext@);
        Ok(p)
    }

    /// True if the text contains a wildcard (so it should be treated as a pattern).
    pub fn is_wildcard(s: &str) -> (r: bool)
        ensures
            r == exists|i: int| 0 <= i < s@.len() && (s@[i] == '*' || s@[i] == '?'),
    {
        let cs = textbuf::chars_of(s);
        let mut i: usize = 0;
        while i < cs.len()
            invariant
                i <= cs@.len(),
                cs@ == s@,
                forall|j: int| 0 <= j < i ==> cs@[j] != '*' && cs@[j] != '?',
            decreases cs.len() - i,
        {
            if cs[i] == '*' || cs[i] == '?' {
                return true;
            }
            i = i + 1;
        }
        false
    }

    pub fn matches(&self, name: &FileName) -> (r: bool)
        ensures
            r == pattern_matches(self@, name@),
    {
        let raw = name.raw();
        let mut k: usize = 0;
        while k < 11
            invariant
                k <= 11,
                raw@ == name@,
                forall|j: int| 0 <= j < k ==> self@[j] == 0x3F || self@[j] == raw@[j],
            decreases 11 - k,
        {
            let p = if k < 8 {
                self.stem[k]
            } else {
                self.ext[k - 8]
            };
            assert(p == self@[k as int]);
            if !(p == 0x3F || p == raw[k]) {
                return false;
            }
            k = k + 1;
        }
        true
    }
}

} // verus!
