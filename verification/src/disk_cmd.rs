//! Addresses of files on a floppy image: `<image>.floppy.yaml[:<A|B>[:<NAME.EXT>]]`.

use vstd::prelude::*;
use vstd::string::StringSliceAdditionalSpecFns;

use crate::cp437::decode_seq;
use crate::detect::{sub_chars, Content};
use crate::diskfs::name::{name_text, parse_name_spec, parse_pattern_spec, trim_spaces};
use crate::diskfs::time::unpack_spec;
use crate::diskfs::update::{delete_spec, reports, Fault};
use crate::diskfs::{
    corrupt_with, find_in, find_spec, formatted, free_count, list_from, list_spec, matching, read_spec, size_report,
    DirEntry, DiskError,
    EntryView, FileName, Pattern, Volume, ATTR_HIDDEN, ATTR_PROTECTED, ATTR_UNKNOWN_I,
};
use crate::filename::{path_extension, path_file_stem};
use crate::floppy_image::{side_name, FloppyImage, Side, FILE_SUFFIX};
use crate::header::FileType;
use crate::textbuf;
use crate::textbuf::{decimal, padded_decimal, padded_hex};
use crate::transfer::{classify_spec, disk_ext_spec, DiskFileKind, Extracted, Format, LineEnding, PutKind, PC1600_NO_AUTORUN};

verus! {

/// A parsed `<image>[:<side>[:<name>]]` argument.
#[derive(Clone, Debug, PartialEq, Eq)]
pub struct ImageAddr {
    pub image: String,
    pub side: Option<Side>,
    /// File name or wildcard pattern; `None` if empty.
    pub name: Option<String>,
}

/// An image address whose side is neither A nor B.
#[derive(Clone, Debug, PartialEq, Eq)]
pub struct BadSide {
    pub arg: String,
    pub side: String,
}

impl BadSide {
    /// The error as a line of text.
    pub open spec fn message_text(self) -> Seq<char> {
        self.arg@ + ": disk side must be A or B, got \""@ + self.side@ + "\""@
    }

    pub fn message(&self) -> (s: String)
        ensures
            s@ == self.message_text(),
    {
        let mut s = String::new();
        textbuf::push_str(&mut s, self.arg.as_str());
        textbuf::push_str(&mut s, ": disk side must be A or B, got \"");
        textbuf::push_str(&mut s, self.side.as_str());
        textbuf::push_str(&mut s, "\"");
        s
    }
}

pub open spec fn ascii_lower(c: char) -> char {
    if 'A' <= c && c <= 'Z' {
        ((c as u32) + 32) as char
    } else {
        c
    }
}

/// Start of the last occurrence of `p` in `t` at or before `k`.
pub open spec fn rfind_from(t: Seq<char>, p: Seq<char>, k: int) -> Option<int>
    decreases k + 1,
{
    if k < 0 {
        None
    } else if k + p.len() <= t.len() && t.subrange(k, k + p.len()) == p {
        Some(k)
    } else {
        rfind_from(t, p, k - 1)
    }
}

/// The side letter and the name of `rest` (the text after `<image>:`).
pub open spec fn side_and_name(rest: Seq<char>) -> (Seq<char>, Seq<char>) {
    match crate::floppy_image::yaml::colon_index(rest, 0) {
        Some(c) => (rest.take(c), rest.skip(c + 1)),
        None => (rest, Seq::empty()),
    }
}

pub open spec fn side_of(s: Seq<char>) -> Option<Side> {
    if s == seq!['A'] || s == seq!['a'] {
        Some(Side::A)
    } else if s == seq!['B'] || s == seq!['b'] {
        Some(Side::B)
    } else {
        None
    }
}

/// What an argument addresses: `Ok(None)` if it is no image address; the image path,
/// side and name; or the bad side text.
pub open spec fn image_addr_spec(arg: Seq<char>) -> Result<Option<(Seq<char>, Option<Side>, Option<Seq<char>>)>, Seq<char>> {
    let lower = arg.map_values(|c: char| ascii_lower(c));
    let suffix = FILE_SUFFIX@;
    match rfind_from(lower, suffix, lower.len() - suffix.len()) {
        None => Ok(None),
        Some(at) => {
            let end = at + suffix.len();
            let image = arg.take(end);
            let rest = arg.skip(end);
            if rest.len() == 0 {
                Ok(Some((image, None, None)))
            } else if rest[0] != ':' {
                Ok(None)
            } else {
                let (s, n) = side_and_name(rest.drop_first());
                match side_of(s) {
                    None => Err(s),
                    Some(side) => Ok(
                        Some(
                            (
                                image,
                                Some(side),
                                if n.len() == 0 {
                                    None
                                } else {
                                    Some(n)
                                },
                            ),
                        ),
                    ),
                }
            }
        },
    }
}

pub open spec fn addr_view(a: ImageAddr) -> (Seq<char>, Option<Side>, Option<Seq<char>>) {
    (
        a.image@,
        a.side,
        match a.name {
            Some(n) => Some(n@),
            None => None,
        },
    )
}

/// Recognize an image address: the path up to and including `.floppy.yaml` (its last
/// occurrence, in any case), then optionally `:A`/`:B`, then optionally `:` and a name.
/// `Ok(None)` if `arg` is no image address (a plain host file, or `x.floppy.yaml.bak`);
/// an error if the side is malformed. Drive letters (`C:\…`) are fine: the image part is
/// found by its suffix, not by splitting on `:`.
pub fn parse_image_addr(arg: &str) -> (r: Result<Option<ImageAddr>, BadSide>)
    ensures
        match r {
            Ok(None) => image_addr_spec(arg@) == Ok::<Option<(Seq<char>, Option<Side>, Option<Seq<char>>)>, Seq<char>>(None),
            Ok(Some(a)) => image_addr_spec(arg@) == Ok::<Option<(Seq<char>, Option<Side>, Option<Seq<char>>)>, Seq<char>>(
                Some(addr_view(a)),
            ),
            Err(e) => image_addr_spec(arg@) == Err::<Option<(Seq<char>, Option<Side>, Option<Seq<char>>)>, Seq<char>>(
                e.side@,
            ) && e.arg@ == arg@,
        },
{
    let cs = textbuf::chars_of(arg);
    let suf = textbuf::chars_of(FILE_SUFFIX);
    proof {
        reveal_strlit(".floppy.yaml");
    }
    let n = cs.len();
    let m = suf.len();
    let found = rfind_lower(&cs, &suf);
    let ghost lower = arg@.map_values(|c: char| ascii_lower(c));
    assert(lower.len() == n);
    let at = match found {
        None => {
            return Ok(None);
        },
        Some(a) => a,
    };
    let end = at + m;
    let image = textbuf::string_of(&cs.as_slice()[0..end]);
    if end == n {
        return Ok(Some(ImageAddr { image, side: None, name: None }));
    }
    if cs[end] != ':' {
        return Ok(None);
    }
    let ghost rest = arg@.skip(end as int).drop_first();
    assert(rest =~= cs@.subrange(end + 1, n as int));
    let mut c = end + 1;
    while c < n && cs[c] != ':'
        invariant
            end + 1 <= c <= n,
            n == cs@.len(),
            cs@ == arg@,
            rest == cs@.subrange(end + 1, n as int),
            crate::floppy_image::yaml::colon_index(rest, 0) == crate::floppy_image::yaml::colon_index(
                rest,
                c - end - 1,
            ),
        decreases n - c,
    {
        assert(rest[c - end - 1] == cs@[c as int]);
        c = c + 1;
    }
    if c < n {
        assert(rest[c - end - 1] == cs@[c as int]);
    }
    assert(cs@.subrange(0, end as int) =~= arg@.take(end as int));
    assert(cs@.subrange(end + 1, c as int) =~= rest.take(c - end - 1));
    let side_text = textbuf::string_of(&cs.as_slice()[end + 1..c]);
    let name_text = if c < n {
        assert(cs@.subrange(c + 1, n as int) =~= rest.skip(c - end));
        textbuf::string_of(&cs.as_slice()[c + 1..n])
    } else {
        String::new()
    };
    let side = match Side::from_str_ci(side_text.as_str()) {
        Some(s) => s,
        None => {
            return Err(BadSide { arg: arg.to_owned(), side: side_text });
        },
    };
    let name = if c < n && c + 1 < n {
        Some(name_text)
    } else {
        None
    };
    Ok(Some(ImageAddr { image, side: Some(side), name }))
}

/// Start of the last occurrence of `p` in `t` with ASCII letters lower-cased.
fn rfind_lower(t: &Vec<char>, p: &Vec<char>) -> (r: Option<usize>)
    requires
        p@.len() > 0,
    ensures
        match r {
            Some(k) => rfind_from(t@.map_values(|c: char| ascii_lower(c)), p@, t@.len() - p@.len()) == Some(k as int)
                && k + p@.len() <= t@.len(),
            None => rfind_from(t@.map_values(|c: char| ascii_lower(c)), p@, t@.len() - p@.len()) is None,
        },
{
    let ghost lower = t@.map_values(|c: char| ascii_lower(c));
    let n = t.len();
    let m = p.len();
    if n < m {
        return None;
    }
    let mut k: usize = n - m + 1;
    while k > 0
        invariant
            k <= n - m + 1,
            n >= m,
            n == t@.len(),
            m == p@.len(),
            lower == t@.map_values(|c: char| ascii_lower(c)),
            rfind_from(lower, p@, n - m) == rfind_from(lower, p@, k - 1),
        decreases k,
    {
        let s = k - 1;
        let mut j: usize = 0;
        while j < m && to_lower(t[s + j]) == p[j]
            invariant
                j <= m,
                s + m <= n,
                n == t@.len(),
                m == p@.len(),
                lower == t@.map_values(|c: char| ascii_lower(c)),
                forall|q: int| 0 <= q < j ==> lower[s + q] == p@[q],
            decreases m - j,
        {
            j = j + 1;
        }
        if j == m {
            assert(lower.subrange(s as int, s + m) =~= p@);
            return Some(s);
        }
        assert(lower.subrange(s as int, s + m) != p@) by {
            assert(lower.subrange(s as int, s + m)[j as int] == lower[s + j]);
        }
        k = k - 1;
    }
    None
}

fn to_lower(c: char) -> (r: char)
    ensures
        r == ascii_lower(c),
{
    if 'A' <= c && c <= 'Z' {
        let v: u32 = (c as u32) + 32;
        textbuf::char_from_ascii(v as u8)
    } else {
        c
    }
}

/// The extension of a file got from the floppy: `bas` for a BASIC listing (tokenized
/// BASIC not asked for as binary, or a program saved as ASCII), `bin` for tokenized
/// BASIC as binary and for machine code stored without one, else the stored one.
pub open spec fn host_ext_spec(stored_ext: Seq<char>, ft: Option<FileType>, content: Content, format: Option<Format>) -> Seq<char> {
    match ft {
        Some(FileType::Basic) => if format != Some(Format::Binary) {
            "bas"@
        } else {
            "bin"@
        },
        None => if content == Content::AsciiBasic {
            "bas"@
        } else {
            stored_ext
        },
        Some(FileType::Machine) => if stored_ext.len() == 0 {
            "bin"@
        } else {
            stored_ext
        },
        _ => stored_ext,
    }
}

/// The host file name for a file got from the floppy: its stored stem, with the
/// extension of [`host_ext_spec`] if there is one.
pub open spec fn host_name_spec(stored: Seq<u8>, ft: Option<FileType>, content: Content, format: Option<Format>) -> Seq<char> {
    let stem = trim_spaces(decode_seq(stored.take(8)));
    let e = host_ext_spec(trim_spaces(decode_seq(stored.skip(8))), ft, content, format);
    if e.len() == 0 {
        stem
    } else {
        stem + seq!['.'] + e
    }
}

/// Host file name for the file `name` got from the floppy as `x`.
pub fn host_name_for(name: &FileName, x: &Extracted, format: Option<Format>) -> (s: String)
    ensures
        s@ == host_name_spec(
            name@,
            match x.header {
                Some(h) => Some(h.file_type),
                None => None,
            },
            x.content,
            format,
        ),
{
    let stored_ext = name.ext();
    let ext: String = match &x.header {
        Some(h) => match h.file_type {
            FileType::Basic => if format != Some(Format::Binary) {
                "bas".to_owned()
            } else {
                "bin".to_owned()
            },
            FileType::Machine => if stored_ext.as_str().is_empty() {
                "bin".to_owned()
            } else {
                stored_ext
            },
            _ => stored_ext,
        },
        None => if x.content == Content::AsciiBasic {
            "bas".to_owned()
        } else {
            stored_ext
        },
    };
    proof {
        reveal_strlit("bas");
        reveal_strlit("bin");
    }
    let mut out = name.stem();
    if !ext.as_str().is_empty() {
        textbuf::push_char(&mut out, '.');
        textbuf::push_str(&mut out, ext.as_str());
    }
    out
}

/// How a `put` to the floppy stored a file.
pub fn describe_put(kind: PutKind) -> (s: &'static str)
    ensures
        s@ == match kind {
            PutKind::AsIs => "stored as-is"@,
            PutKind::TokenizedBasic => "tokenized BASIC"@,
            PutKind::AsciiListing => "BASIC as ASCII"@,
            PutKind::MachineWrapped => "machine language, header added"@,
            PutKind::Text => "text"@,
            PutKind::Raw => "raw"@,
            PutKind::Reserve | PutKind::Variables => "PC-1500 data"@,
        },
{
    match kind {
        PutKind::AsIs => "stored as-is",
        PutKind::TokenizedBasic => "tokenized BASIC",
        PutKind::AsciiListing => "BASIC as ASCII",
        PutKind::MachineWrapped => "machine language, header added",
        PutKind::Text => "text",
        PutKind::Raw => "raw",
        PutKind::Reserve | PutKind::Variables => "PC-1500 data",
    }
}

/// The host file has no usable name on the floppy.
#[derive(Clone, Debug, PartialEq, Eq)]
pub struct NoDiskName {
    pub input: String,
    pub error: DiskError,
}

impl NoDiskName {
    /// The error as a line of text.
    pub open spec fn message_text(self) -> Seq<char> {
        self.input@ + ": "@ + self.error.message_text()
            + "; name the file on the disk explicitly, e.g. <image>:A:NAME.EXT"@
    }

    pub fn message(&self) -> (s: String)
        ensures
            s@ == self.message_text(),
    {
        let mut s = String::new();
        textbuf::push_str(&mut s, self.input.as_str());
        textbuf::push_str(&mut s, ": ");
        let m = self.error.message();
        textbuf::push_str(&mut s, m.as_str());
        textbuf::push_str(&mut s, "; name the file on the disk explicitly, e.g. <image>:A:NAME.EXT");
        s
    }
}

/// The name a host file gets on the floppy: its stem, and the extension of
/// [`disk_ext_spec`] if there is one.
pub open spec fn default_disk_text(input: Seq<char>, kind: PutKind, bytes: Seq<u8>) -> Seq<char> {
    let stem = match path_file_stem(input) {
        Some(s) => s,
        None => Seq::empty(),
    };
    let ext = disk_ext_spec(kind, bytes, path_extension(input));
    if ext.len() == 0 {
        stem
    } else {
        stem + seq!['.'] + ext
    }
}

/// The floppy name for the host file `input` stored as `bytes` (see
/// [`default_disk_text`]); an error when that is no valid floppy name.
pub fn default_disk_name(input: &str, kind: PutKind, bytes: &[u8]) -> (r: Result<FileName, NoDiskName>)
    ensures
        match r {
            Ok(n) => parse_name_spec(vstd::utf8::encode_utf8(default_disk_text(input@, kind, bytes@))) == Some(n@),
            Err(e) => parse_name_spec(vstd::utf8::encode_utf8(default_disk_text(input@, kind, bytes@))) is None
                && e.input@ == input@ && e.error is BadName,
        },
{
    let stem = match crate::filename::file_stem_of(input) {
        Some(s) => s,
        None => String::new(),
    };
    let host_ext = crate::filename::extension_of(input);
    let ext = match &host_ext {
        Some(e) => crate::transfer::disk_ext_for(kind, bytes, Some(e.as_str())),
        None => crate::transfer::disk_ext_for(kind, bytes, None),
    };
    let mut name = stem;
    if !ext.as_str().is_empty() {
        textbuf::push_char(&mut name, '.');
        textbuf::push_str(&mut name, ext.as_str());
    }
    assert(name@ =~= default_disk_text(input@, kind, bytes@));
    match FileName::parse(name.as_str()) {
        Ok(n) => Ok(n),
        Err(e) => Err(NoDiskName { input: input.to_owned(), error: e }),
    }
}

// ── dir ──────────────────────────────────────────────────────────────────

/// How `dir` describes a file's kind.
pub open spec fn kind_text(k: DiskFileKind) -> Seq<char> {
    match k {
        DiskFileKind::Basic { .. } => "BASIC"@,
        DiskFileKind::Machine { load, run, .. } => if run % 0x1_0000 == 0xFFFF {
            "machine, load "@ + padded_hex(load as nat, 6)
        } else {
            "machine, load "@ + padded_hex(load as nat, 6) + ", run "@ + padded_hex(run as nat, 6)
        },
        DiskFileKind::AsciiBasic => "BASIC (ASCII)"@,
        DiskFileKind::Text => "text"@,
        DiskFileKind::Unknown => "unknown"@,
    }
}

pub fn describe_kind(kind: DiskFileKind) -> (s: String)
    ensures
        s@ == kind_text(kind),
{
    let mut s = String::new();
    match kind {
        DiskFileKind::Basic { .. } => textbuf::push_str(&mut s, "BASIC"),
        DiskFileKind::Machine { load, run, .. } => {
            textbuf::push_str(&mut s, "machine, load ");
            textbuf::push_padded_hex(&mut s, load as u64, 6);
            if run % 0x1_0000 != PC1600_NO_AUTORUN {
                textbuf::push_str(&mut s, ", run ");
                textbuf::push_padded_hex(&mut s, run as u64, 6);
            }
        },
        DiskFileKind::AsciiBasic => textbuf::push_str(&mut s, "BASIC (ASCII)"),
        DiskFileKind::Text => textbuf::push_str(&mut s, "text"),
        DiskFileKind::Unknown => textbuf::push_str(&mut s, "unknown"),
    }
    proof {
        reveal_strlit("BASIC");
        reveal_strlit("machine, load ");
        reveal_strlit(", run ");
        reveal_strlit("BASIC (ASCII)");
        reveal_strlit("text");
        reveal_strlit("unknown");
    }
    s
}

pub open spec fn blanks(n: nat) -> Seq<char> {
    Seq::new(n, |i: int| ' ')
}

/// `s` padded with spaces on the right to `w` characters.
pub open spec fn pad_right(s: Seq<char>, w: nat) -> Seq<char> {
    if s.len() >= w {
        s
    } else {
        s + blanks((w - s.len()) as nat)
    }
}

/// `s` padded with spaces on the left to `w` characters.
pub open spec fn pad_left(s: Seq<char>, w: nat) -> Seq<char> {
    if s.len() >= w {
        s
    } else {
        blanks((w - s.len()) as nat) + s
    }
}

pub open spec fn time_text(time: u16, date: u16) -> Seq<char> {
    let ts = unpack_spec(time, date);
    padded_decimal(ts.month as nat, 2) + seq!['-'] + padded_decimal(ts.day as nat, 2) + seq![' '] + padded_decimal(
        ts.hour as nat,
        2,
    ) + seq![':'] + padded_decimal(ts.minute as nat, 2) + seq![':'] + padded_decimal(ts.second as nat, 2)
}

pub open spec fn attr_text(a: u8) -> Seq<char> {
    seq![
        if a & ATTR_PROTECTED != 0 { 'P' } else { '-' },
        if a & ATTR_UNKNOWN_I != 0 { 'I' } else { '-' },
        if a & ATTR_HIDDEN != 0 { 'H' } else { '-' },
    ]
}

/// One file's line: name, size, time stamp, attributes and kind.
pub open spec fn entry_line(e: EntryView, kind: Seq<char>) -> Seq<char> {
    "  "@ + pad_right(name_text(e.name), 12) + " "@ + pad_left(decimal(e.size as nat), 6) + "  "@ + time_text(
        e.time,
        e.date,
    ) + "  "@ + attr_text(e.attr) + "  "@ + kind + "\n"@
}

/// The lines of the files `es` of side `v`; `None` if one does not read.
pub open spec fn entry_lines(v: Seq<u8>, es: Seq<EntryView>) -> Option<Seq<char>>
    decreases es.len(),
{
    if es.len() == 0 {
        Some(Seq::empty())
    } else {
        match (entry_lines(v, es.drop_last()), read_spec(v, es.last())) {
            (Some(t), Ok(b)) => Some(t + entry_line(es.last(), kind_text(classify_spec(b)))),
            _ => None,
        }
    }
}

/// The last line of a side.
pub open spec fn count_line(n: nat, free: nat) -> Seq<char> {
    "  "@ + decimal(n) + " file"@ + (if n == 1 {
        Seq::empty()
    } else {
        seq!['s']
    }) + ", "@ + decimal(free) + " bytes free\n"@
}

pub open spec fn side_head(disk_name: Seq<char>, image: Seq<char>, s: Side) -> Seq<char> {
    "Disk \""@ + disk_name + "\" ("@ + image + "), side "@ + side_name(s) + "\n"@
}

/// The block of side `s` (its bytes `v`), files filtered by the pattern `p`: `None` if a
/// listed file does not read; not formatted sides say so.
pub open spec fn side_block(v: Seq<u8>, disk_name: Seq<char>, image: Seq<char>, s: Side, p: Option<Seq<u8>>) -> Option<Seq<char>> {
    if !formatted(v) {
        Some(side_head(disk_name, image, s) + "  not formatted\n"@)
    } else {
        let es = match p {
            Some(pp) => matching(list_spec(v), pp),
            None => list_spec(v),
        };
        match entry_lines(v, es) {
            Some(t) => Some(side_head(disk_name, image, s) + t + count_line(es.len(), free_count(v, 122) * 512)),
            None => None,
        }
    }
}

pub open spec fn sides_of(side: Option<Side>) -> Seq<Side> {
    match side {
        Some(s) => seq![s],
        None => seq![Side::A, Side::B],
    }
}

/// The blocks of the sides, one empty line between two.
pub open spec fn blocks(img: crate::floppy_image::ImageView, image: Seq<char>, ss: Seq<Side>, p: Option<Seq<u8>>) -> Option<Seq<char>>
    decreases ss.len(),
{
    if ss.len() == 0 {
        Some(Seq::empty())
    } else {
        match (blocks(img, image, ss.drop_last(), p), side_block(img.side(ss.last()), img.disk_name, image, ss.last(), p)) {
            (Some(a), Some(b)) => Some(if ss.len() == 1 {
                b
            } else {
                a + seq!['\n'] + b
            }),
            _ => None,
        }
    }
}

/// A side that cannot be listed: it is not one side's size.
pub open spec fn bad_size(img: crate::floppy_image::ImageView, ss: Seq<Side>) -> bool {
    exists|i: int| 0 <= i < ss.len() && img.side(#[trigger] ss[i]).len() != 65536
}

/// The directory listing of the image `img` (read from the path `image`), one or both
/// sides, files filtered by the pattern `name`: see [`side_block`]; without the final
/// line break. A pattern that does not parse, or a side of the wrong size, is an error.
pub fn dir_listing(img: &FloppyImage, image: &str, side: Option<Side>, name: Option<&str>) -> (r: Result<String, DiskError>)
    ensures
        match name {
            Some(n) => parse_pattern_spec(vstd::utf8::encode_utf8(n@)) is None ==> (r matches Err(e) && e is BadName),
            None => true,
        },
        r matches Ok(t) ==> !bad_size(img@, sides_of(side)) && (blocks(
            img@,
            image@,
            sides_of(side),
            match name {
                Some(n) => parse_pattern_spec(vstd::utf8::encode_utf8(n@)),
                None => None,
            },
        ) matches Some(full) ==> t@ == (if full.len() > 0 {
            full.drop_last()
        } else {
            full
        })),
        r matches Err(e) ==> ((e is BadName && name is Some && parse_pattern_spec(vstd::utf8::encode_utf8(name->0@))
            is None) || (e is Corrupt && bad_size(img@, sides_of(side)))),
{
    let pattern = match name {
        Some(n) => match Pattern::parse(n) {
            Ok(p) => Some(p),
            Err(e) => return Err(e),
        },
        None => None,
    };
    let ghost p = match name {
        Some(n) => parse_pattern_spec(vstd::utf8::encode_utf8(n@)),
        None => None,
    };
    let sides: Vec<Side> = match side {
        Some(s) => vec![s],
        None => vec![Side::A, Side::B],
    };
    assert(sides@ =~= sides_of(side));
    let mut out = String::new();
    let mut ok = true;
    let mut i: usize = 0;
    while i < sides.len()
        invariant
            i <= sides@.len(),
            sides@ == sides_of(side),
            p == match pattern {
                Some(pp) => Some(pp@),
                None => None::<Seq<u8>>,
            },
            p == match name {
                Some(n) => parse_pattern_spec(vstd::utf8::encode_utf8(n@)),
                None => None,
            },
            name is Some ==> pattern is Some,
            forall|k: int| 0 <= k < i ==> img@.side(#[trigger] sides@[k]).len() == 65536,
            ok ==> blocks(img@, image@, sides@.take(i as int), p) == Some(out@),
            !ok ==> blocks(img@, image@, sides@.take(i as int), p) is None,
        decreases sides.len() - i,
    {
        let s = sides[i];
        let ghost before = out@;
        assert(sides@.take(i + 1).drop_last() =~= sides@.take(i as int));
        if i > 0 {
            textbuf::push_char(&mut out, '\n');
        }
        let ghost head = out@;
        let block_ok = match push_side_block(&mut out, img, image, s, &pattern) {
            Ok(b) => b,
            Err(e) => return Err(e),
        };
        proof {
            if ok && block_ok {
                let b = side_block(img@.side(s), img@.disk_name, image@, s, p)->Some_0;
                if i == 0 {
                    assert(out@ =~= b);
                } else {
                    assert(out@ =~= before + seq!['\n'] + b);
                }
            }
        }
        if !block_ok {
            ok = false;
        }
        i = i + 1;
    }
    assert(sides@.take(i as int) =~= sides@);
    let cs = textbuf::chars_of(out.as_str());
    if cs.len() > 0 {
        let t = textbuf::string_of(vstd::slice::slice_subrange(cs.as_slice(), 0, cs.len() - 1));
        assert(cs@.subrange(0, cs.len() - 1) =~= out@.drop_last());
        Ok(t)
    } else {
        Ok(out)
    }
}

/// Appends the block of side `s`: `Ok(false)` (with an unspecified text) when a file does
/// not read; an error when the side is not one side's size.
fn push_side_block(out: &mut String, img: &FloppyImage, image: &str, s: Side, pattern: &Option<Pattern>) -> (r: Result<
    bool,
    DiskError,
>)
    ensures
        r matches Ok(true) ==> (side_block(
            img@.side(s),
            img@.disk_name,
            image@,
            s,
            match pattern {
                Some(pp) => Some(pp@),
                None => None::<Seq<u8>>,
            },
        ) matches Some(b) && final(out)@ == old(out)@ + b),
        r matches Ok(false) ==> side_block(
            img@.side(s),
            img@.disk_name,
            image@,
            s,
            match pattern {
                Some(pp) => Some(pp@),
                None => None::<Seq<u8>>,
            },
        ) is None,
        r is Ok ==> img@.side(s).len() == 65536,
        r matches Err(e) ==> e is Corrupt && img@.side(s).len() != 65536,
{
    let bytes = img.side(s);
    let v = vstd::slice::slice_to_vec(bytes);
    push_side_head(out, img.disk_name.as_str(), image, s);
    let ghost head = out@;
    let vol = match Volume::open_floppy_side(v) {
        Ok(vol) => vol,
        Err(e) => {
            if bytes.len() != 65536 {
                return Err(e);
            }
            textbuf::push_str(out, "  not formatted\n");
            proof {
                reveal_strlit("  not formatted\n");
            }
            return Ok(true);
        },
    };
    let entries = match pattern {
        Some(pp) => vol.glob(pp),
        None => vol.list(),
    };
    proof {
        vol.lemma_formatted();
    }
    let ghost es = crate::diskfs::views(entries@);
    let ghost mid = out@;
    let lines_ok = push_entry_lines(out, &vol, &entries);
    let ghost after = out@;
    let free = vol.free_bytes();
    push_count_line(out, entries.len(), free);
    proof {
        if lines_ok {
            let t = entry_lines(vol@, es)->Some_0;
            assert(out@ =~= old(out)@ + (side_head(img@.disk_name, image@, s) + t + count_line(es.len(), free_count(vol@, 122) * 512)));
        }
    }
    Ok(lines_ok)
}

fn push_side_head(out: &mut String, disk_name: &str, image: &str, s: Side)
    ensures
        final(out)@ == old(out)@ + side_head(disk_name@, image@, s),
{
    textbuf::push_str(out, "Disk \"");
    textbuf::push_str(out, disk_name);
    textbuf::push_str(out, "\" (");
    textbuf::push_str(out, image);
    textbuf::push_str(out, "), side ");
    textbuf::push_str(out, s.as_str());
    textbuf::push_str(out, "\n");
    proof {
        reveal_strlit("Disk \"");
        reveal_strlit("\" (");
        reveal_strlit("), side ");
        reveal_strlit("\n");
        assert(out@ =~= old(out)@ + side_head(disk_name@, image@, s));
    }
}

fn push_count_line(out: &mut String, n: usize, free: usize)
    ensures
        final(out)@ == old(out)@ + count_line(n as nat, free as nat),
{
    textbuf::push_str(out, "  ");
    textbuf::push_decimal(out, n as u64);
    textbuf::push_str(out, " file");
    if n != 1 {
        textbuf::push_char(out, 's');
    }
    textbuf::push_str(out, ", ");
    textbuf::push_decimal(out, free as u64);
    textbuf::push_str(out, " bytes free\n");
    proof {
        reveal_strlit("  ");
        reveal_strlit(" file");
        reveal_strlit(", ");
        reveal_strlit(" bytes free\n");
        assert(out@ =~= old(out)@ + count_line(n as nat, free as nat));
    }
}

/// Appends `s` padded to `w` characters, on the right or on the left.
fn push_padded(out: &mut String, s: &str, w: usize, left: bool)
    ensures
        final(out)@ == old(out)@ + if left {
            pad_left(s@, w as nat)
        } else {
            pad_right(s@, w as nat)
        },
{
    let cs = textbuf::chars_of(s);
    let n = cs.len();
    if !left {
        textbuf::push_str(out, s);
    }
    let mut k = n;
    let ghost mid = out@;
    assert(mid == old(out)@ + if left {
        Seq::<char>::empty()
    } else {
        s@
    });
    assert(mid =~= mid + blanks(0));
    while k < w
        invariant
            n <= k,
            k <= w || k == n,
            n == s@.len(),
            out@ == mid + blanks((k - n) as nat),
        decreases w - k,
    {
        textbuf::push_char(out, ' ');
        k = k + 1;
        assert(out@ =~= mid + blanks((k - n) as nat));
    }
    if left {
        textbuf::push_str(out, s);
    }
    proof {
        if n >= w {
            assert(blanks(0) =~= Seq::<char>::empty());
        }
        assert(out@ =~= old(out)@ + if left {
            pad_left(s@, w as nat)
        } else {
            pad_right(s@, w as nat)
        });
    }
}

/// Appends the line of each entry; `false` (with the lines so far and an unspecified
/// one) when an entry does not read.
fn push_entry_lines(out: &mut String, vol: &Volume, entries: &Vec<DirEntry>) -> (ok: bool)
    requires
        vol.wf(),
    ensures
        ok ==> (entry_lines(vol@, crate::diskfs::views(entries@)) matches Some(t) && final(out)@ == old(out)@ + t),
        !ok ==> entry_lines(vol@, crate::diskfs::views(entries@)) is None,
{
    let ghost es = crate::diskfs::views(entries@);
    let ghost mut acc: Seq<char> = Seq::empty();
    let mut ok = true;
    let mut i: usize = 0;
    assert(old(out)@ + acc =~= old(out)@);
    while i < entries.len()
        invariant
            vol.wf(),
            i <= entries@.len(),
            es == crate::diskfs::views(entries@),
            ok ==> entry_lines(vol@, es.take(i as int)) == Some(acc) && out@ == old(out)@ + acc,
            !ok ==> entry_lines(vol@, es.take(i as int)) is None,
        decreases entries.len() - i,
    {
        let e = &entries[i];
        assert(es.take(i + 1).drop_last() =~= es.take(i as int));
        assert(es.take(i + 1).last() == e@);
        let kind = match vol.read(e) {
            Ok(bytes) => describe_kind(crate::transfer::classify_disk_file(bytes.as_slice())),
            Err(err) => {
                ok = false;
                let mut k = String::new();
                textbuf::push_str(&mut k, "? (");
                let m = err.message();
                textbuf::push_str(&mut k, m.as_str());
                textbuf::push_str(&mut k, ")");
                k
            },
        };
        let ghost before = out@;
        push_entry_line(out, e, kind.as_str());
        proof {
            if ok {
                let line = entry_line(e@, kind@);
                assert(out@ =~= old(out)@ + (acc + line));
                acc = acc + line;
            }
        }
        i = i + 1;
    }
    proof {
        assert(es.take(i as int) =~= es);
    }
    ok
}

#[verifier::spinoff_prover]
#[verifier::rlimit(30)]
fn push_entry_line(out: &mut String, e: &DirEntry, kind: &str)
    ensures
        final(out)@ == old(out)@ + entry_line(e@, kind@),
{
    textbuf::push_str(out, "  ");
    let name = e.name.to_text();
    push_padded(out, name.as_str(), 12, false);
    textbuf::push_str(out, " ");
    let mut size = String::new();
    textbuf::push_decimal(&mut size, e.size as u64);
    push_padded(out, size.as_str(), 6, true);
    textbuf::push_str(out, "  ");
    let ts = e.timestamp().to_text();
    textbuf::push_str(out, ts.as_str());
    textbuf::push_str(out, "  ");
    let attrs = e.attr_letters();
    textbuf::push_str(out, attrs.as_str());
    textbuf::push_str(out, "  ");
    textbuf::push_str(out, kind);
    textbuf::push_str(out, "\n");
    proof {
        reveal_strlit("  ");
        reveal_strlit(" ");
        reveal_strlit("\n");
        assert(out@ =~= old(out)@ + entry_line(e@, kind@));
    }
}

/// How `get` takes files off a floppy image.
pub struct DiskGetOptions {
    pub format: Option<Format>,
    pub skip_header: bool,
    pub raw: bool,
    pub eol: LineEnding,
    pub dry_run: bool,
    pub verbose: bool,
}

/// How `put` stores files on a floppy image.
pub struct DiskPutOptions {
    pub format: Option<Format>,
    pub start_address: Option<u32>,
    pub run_address: Option<u32>,
    pub raw: bool,
    pub force: bool,
    pub dry_run: bool,
    pub verbose: bool,
}

// ── del ──────────────────────────────────────────────────────────────────

/// One thing to delete: the argument as given, its side, and a file name or pattern.
#[derive(Clone, Debug, PartialEq, Eq)]
pub struct DelItem {
    pub arg: String,
    pub side: Side,
    pub name: String,
}

/// Why a deletion does not happen.
#[derive(Clone, Debug, PartialEq, Eq)]
pub enum DelError {
    /// Nothing on the side matches the name or pattern.
    NoFiles { arg: String, name: String },
    Disk(DiskError),
}

impl DelError {
    /// The error as a line of text.
    pub open spec fn message_text(self) -> Seq<char> {
        match self {
            DelError::NoFiles { arg, name } => arg@ + ": "@ + DiskError::NotFound(name).message_text(),
            DelError::Disk(e) => e.message_text(),
        }
    }

    pub fn message(&self) -> (s: String)
        ensures
            s@ == self.message_text(),
    {
        match self {
            DelError::NoFiles { arg, name } => {
                let mut s = String::new();
                textbuf::push_str(&mut s, arg.as_str());
                textbuf::push_str(&mut s, ": ");
                let m = DiskError::NotFound(name.clone()).message();
                textbuf::push_str(&mut s, m.as_str());
                s
            },
            DelError::Disk(e) => e.message(),
        }
    }
}

/// Every entry is in a directory slot.
pub open spec fn slots_ok(es: Seq<EntryView>) -> bool {
    forall|i: int| 0 <= i < es.len() ==> 0 <= #[trigger] es[i].slot < 48
}

proof fn lemma_list_slots(d: Seq<u8>, slot: int)
    ensures
        slots_ok(list_from(d, slot)),
    decreases 48 - slot,
{
    if 0 <= slot < 48 {
        lemma_list_slots(d, slot + 1);
        let rest = list_from(d, slot + 1);
        if d[crate::diskfs::dir_off(slot)] != 0x00 && d[crate::diskfs::dir_off(slot)] != crate::diskfs::DELETED {
            let l = list_from(d, slot);
            assert forall|i: int| 0 <= i < l.len() implies 0 <= #[trigger] l[i].slot < 48 by {
                if i > 0 {
                    assert(l[i] == rest[i - 1]);
                }
            }
        }
    }
}

proof fn lemma_matching_slots(es: Seq<EntryView>, p: Seq<u8>)
    requires
        slots_ok(es),
    ensures
        slots_ok(matching(es, p)),
    decreases es.len(),
{
    if es.len() > 0 {
        let rest = es.drop_first();
        assert(slots_ok(rest)) by {
            assert forall|i: int| 0 <= i < rest.len() implies 0 <= #[trigger] rest[i].slot < 48 by {
                assert(rest[i] == es[i + 1]);
            }
        }
        lemma_matching_slots(rest, p);
        let m = matching(es, p);
        let mr = matching(rest, p);
        assert forall|i: int| 0 <= i < m.len() implies 0 <= #[trigger] m[i].slot < 48 by {
            if crate::diskfs::name::pattern_matches(p, es[0].name) {
                if i > 0 {
                    assert(m[i] == mr[i - 1]);
                } else {
                    assert(m[0] == es[0]);
                }
            } else {
                assert(m[i] == mr[i]);
            }
        }
    }
}

proof fn lemma_find_slot(es: Seq<EntryView>, name: Seq<u8>)
    requires
        slots_ok(es),
    ensures
        find_in(es, name) matches Some(e) ==> 0 <= e.slot < 48,
    decreases es.len(),
{
    if es.len() > 0 && es[0].name != name {
        let rest = es.drop_first();
        assert(slots_ok(rest)) by {
            assert forall|i: int| 0 <= i < rest.len() implies 0 <= #[trigger] rest[i].slot < 48 by {
                assert(rest[i] == es[i + 1]);
            }
        }
        lemma_find_slot(rest, name);
    }
}

/// A name holds a wildcard.
pub open spec fn wildcard(n: Seq<char>) -> bool {
    exists|i: int| 0 <= i < n.len() && (n[i] == '*' || n[i] == '?')
}

/// The entries of side `v` a name or pattern selects; `None` if it does not parse.
pub open spec fn selected(v: Seq<u8>, name: Seq<char>) -> Option<Seq<EntryView>> {
    if wildcard(name) {
        match crate::diskfs::name::parse_pattern_spec(vstd::utf8::encode_utf8(name)) {
            Some(p) => Some(matching(list_spec(v), p)),
            None => None,
        }
    } else {
        match parse_name_spec(vstd::utf8::encode_utf8(name)) {
            Some(n) => Some(
                match find_spec(v, n) {
                    Some(e) => seq![e],
                    None => Seq::empty(),
                },
            ),
            None => None,
        }
    }
}

/// Why one item of a deletion fails.
pub enum DelFault {
    /// The side does not mount: it holds this many bytes.
    Mount(nat),
    /// The name or pattern does not parse.
    BadName,
    /// The name or pattern (the argument, and the name) selects no file.
    NoFiles(Seq<char>, Seq<char>),
    /// The file of this name does not delete, for this reason.
    Delete(Fault, Seq<u8>),
}

/// `err` is the error that reports `f`.
pub open spec fn del_reports(err: DelError, f: DelFault) -> bool {
    match f {
        DelFault::Mount(len) => err matches DelError::Disk(e) && (len != 65536 ==> corrupt_with(e, size_report(len)))
            && (len == 65536 ==> e is NotFormatted),
        DelFault::BadName => err matches DelError::Disk(e) && e is BadName,
        DelFault::NoFiles(a, n) => err matches DelError::NoFiles { arg, name } && arg@ == a && name@ == n,
        DelFault::Delete(f, name) => err matches DelError::Disk(e) && reports(e, f, name),
    }
}

/// Deleting the entries `es` from side `v` one after the other; the first file that
/// does not delete.
pub open spec fn deletes(v: Seq<u8>, es: Seq<EntryView>, force: bool) -> Result<Seq<u8>, DelFault>
    decreases es.len(),
{
    if es.len() == 0 {
        Ok(v)
    } else {
        match deletes(v, es.drop_last(), force) {
            Ok(w) => match delete_spec(w, es.last(), force) {
                Ok(x) => Ok(x),
                Err(f) => Err(DelFault::Delete(f, es.last().name)),
            },
            Err(f) => Err(f),
        }
    }
}

pub open spec fn deleted_line(e: EntryView, image: Seq<char>, s: Side) -> Seq<char> {
    "Deleted "@ + name_text(e.name) + " from "@ + image + " side "@ + side_name(s)
}

pub open spec fn deleted_lines(es: Seq<EntryView>, image: Seq<char>, s: Side) -> Seq<Seq<char>> {
    es.map_values(|e: EntryView| deleted_line(e, image, s))
}

/// Deleting one item's files from image `img`: the image after and the report, or why
/// it fails: the side does not mount, the name does not parse or selects nothing, or a
/// file does not delete.
pub open spec fn item_step(
    img: crate::floppy_image::ImageView,
    image: Seq<char>,
    item: (Seq<char>, Side, Seq<char>),
    force: bool,
) -> Result<(crate::floppy_image::ImageView, Seq<Seq<char>>), DelFault> {
    let s = item.1;
    let v = img.side(s);
    if !formatted(v) {
        Err(DelFault::Mount(v.len()))
    } else {
        match selected(v, item.2) {
            Some(es) => if es.len() == 0 {
                Err(DelFault::NoFiles(item.0, item.2))
            } else {
                match deletes(v, es, force) {
                    Ok(w) => Ok((img.with_side(s, w), deleted_lines(es, image, s))),
                    Err(f) => Err(f),
                }
            },
            None => Err(DelFault::BadName),
        }
    }
}

/// The image and report after the items are deleted from image `img` in turn, or why
/// the first failing item fails.
pub open spec fn del_items(
    img: crate::floppy_image::ImageView,
    image: Seq<char>,
    items: Seq<(Seq<char>, Side, Seq<char>)>,
    force: bool,
) -> Result<(crate::floppy_image::ImageView, Seq<Seq<char>>), DelFault>
    decreases items.len(),
{
    if items.len() == 0 {
        Ok((img, Seq::empty()))
    } else {
        match del_items(img, image, items.drop_last(), force) {
            Err(f) => Err(f),
            Ok((cur, lines)) => match item_step(cur, image, items.last(), force) {
                Ok((next, more)) => Ok((next, lines + more)),
                Err(f) => Err(f),
            },
        }
    }
}

pub open spec fn item_views(items: Seq<DelItem>) -> Seq<(Seq<char>, Side, Seq<char>)> {
    items.map_values(|it: DelItem| (it.arg@, it.side, it.name@))
}

/// Delete the items from the image `img` (read from the path `image`), each side's
/// files by name or pattern, one after the other; with the report of each file
/// deleted. A name selecting nothing, a side that does not mount, and a file that does
/// not delete (write-protected without `force`, or a broken chain) are errors; the image
/// is then not to be saved.
pub fn delete_in_image(img: &mut FloppyImage, image: &str, items: &[DelItem], force: bool) -> (r: Result<
    Vec<String>,
    DelError,
>)
    ensures
        r matches Ok(msgs) ==> (del_items(old(img)@, image@, item_views(items@), force) matches Ok(res)
            && final(img)@ == res.0 && msgs@.map_values(|m: String| m@) == res.1),
        r matches Err(e) ==> (del_items(old(img)@, image@, item_views(items@), force) matches Err(f)
            && del_reports(e, f)),
{
    let ghost iv = item_views(items@);
    let mut msgs: Vec<String> = Vec::new();
    let mut k: usize = 0;
    assert(iv.take(0) =~= Seq::<(Seq<char>, Side, Seq<char>)>::empty());
    assert(msgs@.map_values(|m: String| m@) =~= Seq::<Seq<char>>::empty());
    while k < items.len()
        invariant
            k <= items@.len(),
            iv == item_views(items@),
            del_items(old(img)@, image@, iv.take(k as int), force) == Ok::<
                (crate::floppy_image::ImageView, Seq<Seq<char>>),
                DelFault,
            >((img@, msgs@.map_values(|m: String| m@))),
        decreases items.len() - k,
    {
        let item = &items[k];
        assert(iv.take(k + 1).drop_last() =~= iv.take(k as int));
        assert(iv.take(k + 1).last() == (item.arg@, item.side, item.name@));
        let ghost before = img@;
        let ghost lines = msgs@.map_values(|m: String| m@);
        match delete_item(img, image, item, force, &mut msgs) {
            Ok(()) => {},
            Err(e) => {
                proof {
                    let f = item_step(before, image@, iv.take(k + 1).last(), force)->Err_0;
                    lemma_del_items_prefix_err(old(img)@, image@, iv, force, k + 1, f);
                }
                return Err(e);
            },
        }
        k = k + 1;
    }
    assert(iv.take(k as int) =~= iv);
    Ok(msgs)
}

/// The first failing item among the first `n` is the first failing one of all.
proof fn lemma_del_items_prefix_err(
    img: crate::floppy_image::ImageView,
    image: Seq<char>,
    items: Seq<(Seq<char>, Side, Seq<char>)>,
    force: bool,
    n: int,
    f: DelFault,
)
    requires
        0 <= n <= items.len(),
        del_items(img, image, items.take(n), force) == Err::<(crate::floppy_image::ImageView, Seq<Seq<char>>), DelFault>(f),
    ensures
        del_items(img, image, items, force) == Err::<(crate::floppy_image::ImageView, Seq<Seq<char>>), DelFault>(f),
    decreases items.len() - n,
{
    if n < items.len() {
        assert(items.take(n + 1).drop_last() =~= items.take(n));
        lemma_del_items_prefix_err(img, image, items, force, n + 1, f);
    } else {
        assert(items.take(n) =~= items);
    }
}

/// One item of [`delete_in_image`].
fn delete_item(img: &mut FloppyImage, image: &str, item: &DelItem, force: bool, msgs: &mut Vec<String>) -> (r: Result<
    (),
    DelError,
>)
    ensures
        r is Ok ==> (item_step(old(img)@, image@, (item.arg@, item.side, item.name@), force) matches Ok(st)
            && final(img)@ == st.0 && final(msgs)@.map_values(|m: String| m@) == old(msgs)@.map_values(
            |m: String| m@,
        ) + st.1),
        r matches Err(e) ==> (item_step(old(img)@, image@, (item.arg@, item.side, item.name@), force) matches Err(
            f,
        ) && del_reports(e, f)),
{
    let s = item.side;
    let v = vstd::slice::slice_to_vec(img.side(s));
    let mut vol = match Volume::open_floppy_side(v) {
        Ok(vol) => vol,
        Err(e) => return Err(DelError::Disk(e)),
    };
    proof {
        vol.lemma_formatted();
        lemma_list_slots(vol@, 0);
    }
    let name = item.name.as_str();
    let entries: Vec<DirEntry> = if Pattern::is_wildcard(name) {
        let p = match Pattern::parse(name) {
            Ok(p) => p,
            Err(e) => return Err(DelError::Disk(e)),
        };
        proof {
            lemma_matching_slots(list_spec(vol@), p@);
        }
        vol.glob(&p)
    } else {
        let n = match FileName::parse(name) {
            Ok(n) => n,
            Err(e) => return Err(DelError::Disk(e)),
        };
        proof {
            lemma_find_slot(list_spec(vol@), n@);
        }
        match vol.find(&n) {
            Some(e) => {
                let mut one = Vec::new();
                one.push(e);
                proof {
                    assert(crate::diskfs::views(one@) =~= seq![e@]);
                }
                one
            },
            None => {
                let none: Vec<DirEntry> = Vec::new();
                proof {
                    assert(crate::diskfs::views(none@) =~= Seq::<EntryView>::empty());
                }
                none
            },
        }
    };
    let ghost es = crate::diskfs::views(entries@);
    assert(selected(vol@, item.name@) == Some(es));
    assert(slots_ok(es));
    if entries.len() == 0 {
        return Err(DelError::NoFiles { arg: item.arg.clone(), name: item.name.clone() });
    }
    let ghost v0 = vol@;
    assert(v0 == old(img)@.side(s));
    let ghost m0 = msgs@.map_values(|m: String| m@);
    let mut i: usize = 0;
    assert(es.take(0) =~= Seq::<EntryView>::empty());
    while i < entries.len()
        invariant
            vol.wf(),
            i <= entries@.len(),
            es == crate::diskfs::views(entries@),
            slots_ok(es),
            deletes(v0, es.take(i as int), force) == Ok::<Seq<u8>, DelFault>(vol@),
            msgs@.map_values(|m: String| m@) == m0 + deleted_lines(es.take(i as int), image@, s),
            s == item.side,
            v0 == old(img)@.side(s),
            img@ == old(img)@,
            formatted(v0),
            selected(v0, item.name@) == Some(es),
            es.len() > 0,
            m0 == old(msgs)@.map_values(|m: String| m@),
        decreases entries.len() - i,
    {
        let e = &entries[i];
        assert(es.take(i + 1).drop_last() =~= es.take(i as int));
        assert(es.take(i + 1).last() == e@);
        assert(e@ == es[i as int]);
        assert(0 <= es[i as int].slot < 48);
        let ghost cur = vol@;
        match vol.delete(e, force) {
            Ok(()) => {},
            Err(err) => {
                proof {
                    let f = delete_spec(cur, es.take(i + 1).last(), force)->Err_0;
                    assert(deletes(v0, es.take(i + 1), force) == Err::<Seq<u8>, DelFault>(DelFault::Delete(f, e@.name)));
                    lemma_deletes_prefix_err(v0, es, force, i + 1, DelFault::Delete(f, e@.name));
                }
                return Err(DelError::Disk(err));
            },
        }
        let mut line = String::new();
        textbuf::push_str(&mut line, "Deleted ");
        let n = e.name.to_text();
        textbuf::push_str(&mut line, n.as_str());
        textbuf::push_str(&mut line, " from ");
        textbuf::push_str(&mut line, image);
        textbuf::push_str(&mut line, " side ");
        textbuf::push_str(&mut line, s.as_str());
        proof {
            reveal_strlit("Deleted ");
            reveal_strlit(" from ");
            reveal_strlit(" side ");
            assert(line@ =~= deleted_line(e@, image@, s));
        }
        let ghost before = msgs@.map_values(|m: String| m@);
        msgs.push(line);
        proof {
            assert(msgs@.map_values(|m: String| m@) =~= before.push(deleted_line(e@, image@, s)));
            assert(deleted_lines(es.take(i + 1), image@, s) =~= deleted_lines(es.take(i as int), image@, s).push(
                deleted_line(e@, image@, s),
            ));
        }
        i = i + 1;
    }
    assert(es.take(i as int) =~= es);
    let out = vol.into_inner();
    *img.side_mut(s) = out;
    Ok(())
}

/// The first failing delete among the first `n` entries is the first failing one of all.
proof fn lemma_deletes_prefix_err(v: Seq<u8>, es: Seq<EntryView>, force: bool, n: int, f: DelFault)
    requires
        0 <= n <= es.len(),
        deletes(v, es.take(n), force) == Err::<Seq<u8>, DelFault>(f),
    ensures
        deletes(v, es, force) == Err::<Seq<u8>, DelFault>(f),
    decreases es.len() - n,
{
    if n < es.len() {
        assert(es.take(n + 1).drop_last() =~= es.take(n));
        lemma_deletes_prefix_err(v, es, force, n + 1, f);
    } else {
        assert(es.take(n) =~= es);
    }
}

} // verus!
