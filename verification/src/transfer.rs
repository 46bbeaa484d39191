//! Host-file ⇄ device-bytes rules shared by the transfer targets (serial `get`/`put`
//! and the floppy image): device text files, what kind a floppy file is, and the
//! extension it is stored under.

use vstd::prelude::*;

use crate::cp437::cp437_byte;
use crate::detect::{detect_spec, Content};
use crate::diskfs::name::parse_name_spec;
use crate::diskfs::FileName;
use crate::filename::{basename_spec, path_file_stem};
use crate::header::{
    ascii_upper, build_ce158_spec, build_header_spec, build_pc1600_spec, buildable, find_spec, opt_header_view,
    to_ascii_upper, BuildHeader, FileType, HeaderView, ParsedHeader,
};
use crate::registry::{Device, KeywordView, Registry};
use crate::reserve::{self, ReserveError};
use crate::scanner::SegmentMarker;
use crate::textbuf;
use crate::variables::{self, reports_encode, value_views, EncodeFault, VarError};

verus! {

/// `--format`: the host-side representation asked for.
#[derive(Copy, Clone, Debug, PartialEq, Eq, Structural)]
pub enum Format {
    Ascii,
    Binary,
}

/// Where the bytes go: a live Pocket Computer over serial, or a file on a PC-1600
/// floppy.
#[derive(Copy, Clone, Debug, PartialEq, Eq, Structural)]
pub enum Endpoint {
    Serial,
    Disk,
}

/// Low 16 bits of a PC-1600 header's run address meaning "no auto-start" (`BSAVE`'s
/// default `&FFFF`).
pub const PC1600_NO_AUTORUN: u32 = 0xFFFF;

/// How the bytes of a `put` came about.
#[derive(Copy, Clone, Debug, PartialEq, Eq, Structural)]
pub enum PutKind {
    /// Input already carried a recognized header; sent unmodified.
    AsIs,
    TokenizedBasic,
    /// A BASIC listing stored as a PC-1600 ASCII file (`SAVE "…",A` form).
    AsciiListing,
    Reserve,
    Variables,
    /// Headerless machine language wrapped in a synthesized header (`--start-address`).
    MachineWrapped,
    /// Host text converted to device text (CP437, CRLF, trailing `1A`).
    Text,
    /// `--raw`: sent unmodified without a header.
    Raw,
}

// ── device text ──────────────────────────────────────────────────────────

/// Why host text has no device form: the character at a line and column (from 1) has
/// no equivalent in the Sharp character set.
#[derive(Clone, Copy, Debug, PartialEq, Eq, Structural)]
pub struct Unmappable {
    pub line: usize,
    pub column: usize,
    pub ch: char,
}

impl Unmappable {
    /// The error as a line of text.
    pub open spec fn message_text(self) -> Seq<char> {
        "line "@ + crate::textbuf::decimal(self.line as nat) + ", column "@ + crate::textbuf::decimal(self.column as nat) + ": U+"@
            + crate::textbuf::padded_hex(self.ch as u32 as nat, 4) + " '"@ + seq![self.ch]
            + "' has no equivalent in the Sharp character set"@
    }

    pub fn message(&self) -> (s: String)
        ensures
            s@ == self.message_text(),
    {
        let mut s = String::new();
        textbuf::push_str(&mut s, "line ");
        textbuf::push_decimal(&mut s, self.line as u64);
        textbuf::push_str(&mut s, ", column ");
        textbuf::push_decimal(&mut s, self.column as u64);
        textbuf::push_str(&mut s, ": U+");
        textbuf::push_padded_hex(&mut s, self.ch as u32 as u64, 4);
        textbuf::push_str(&mut s, " '");
        textbuf::push_char(&mut s, self.ch);
        textbuf::push_str(&mut s, "' has no equivalent in the Sharp character set");
        s
    }
}

/// `cs` without trailing `1A` end-of-file characters.
pub open spec fn trim_eof(cs: Seq<char>) -> Seq<char>
    decreases cs.len(),
{
    if cs.len() > 0 && cs.last() == '\u{1A}' {
        trim_eof(cs.drop_last())
    } else {
        cs
    }
}

/// Device text for `cs` from `i` on, at line `line` and column `col`: every line end
/// (LF, CR or CR LF) becomes CR LF, every other character its CP437 byte.
pub open spec fn text_from(cs: Seq<char>, i: int, line: nat, col: nat) -> Result<Seq<u8>, (nat, nat, char)>
    decreases cs.len() - i,
{
    if i < 0 || i >= cs.len() {
        Ok(Seq::empty())
    } else {
        let c = cs[i];
        if c == '\r' || c == '\n' {
            let j = if c == '\r' && i + 1 < cs.len() && cs[i + 1] == '\n' {
                i + 2
            } else {
                i + 1
            };
            match text_from(cs, j, line + 1, 1) {
                Ok(r) => Ok(seq![0x0Du8, 0x0Au8] + r),
                Err(e) => Err(e),
            }
        } else {
            match cp437_byte(c) {
                None => Err((line, col, c)),
                Some(b) => match text_from(cs, i + 1, line, col + 1) {
                    Ok(r) => Ok(seq![b] + r),
                    Err(e) => Err(e),
                },
            }
        }
    }
}

/// Host text as a PC-1600 ASCII file: the text without trailing `1A`s, converted, then
/// one `1A` end-of-file byte.
pub open spec fn encode_text_spec(t: Seq<char>) -> Result<Seq<u8>, (nat, nat, char)> {
    match text_from(trim_eof(t), 0, 1, 1) {
        Ok(b) => Ok(b.push(0x1A)),
        Err(e) => Err(e),
    }
}

/// `r` with `pre` put before its bytes.
pub open spec fn after(pre: Seq<u8>, r: Result<Seq<u8>, (nat, nat, char)>) -> Result<Seq<u8>, (nat, nat, char)> {
    match r {
        Ok(x) => Ok(pre + x),
        Err(e) => Err(e),
    }
}

/// Encode host text as a PC-1600 ASCII file: CP437, every line ending (LF, CR, CR LF)
/// becomes CR LF, one `1A` appended (an existing trailing `1A` is not doubled). A
/// character outside the Sharp set is an error naming its position.
pub fn encode_text(text: &str) -> (r: Result<Vec<u8>, Unmappable>)
    requires
        text@.len() < usize::MAX,
    ensures
        match r {
            Ok(b) => encode_text_spec(text@) == Ok::<Seq<u8>, (nat, nat, char)>(b@),
            Err(e) => encode_text_spec(text@) == Err::<Seq<u8>, (nat, nat, char)>(
                (e.line as nat, e.column as nat, e.ch),
            ),
        },
{
    let all = textbuf::chars_of(text);
    let mut n = all.len();
    assert(all@.take(n as int) =~= all@);
    while n > 0 && all[n - 1] == '\u{1A}'
        invariant
            n <= all@.len(),
            trim_eof(all@) == trim_eof(all@.take(n as int)),
        decreases n,
    {
        assert(all@.take(n as int).drop_last() =~= all@.take(n - 1));
        n = n - 1;
    }
    let ghost cs = all@.take(n as int);
    assert(trim_eof(cs) == cs);
    let mut out: Vec<u8> = Vec::new();
    let mut line: usize = 1;
    let mut col: usize = 1;
    let mut i: usize = 0;
    while i < n
        invariant
            i <= n <= all@.len(),
            all@.len() < usize::MAX,
            cs == all@.take(n as int),
            trim_eof(text@) == cs,
            all@ == text@,
            1 <= line <= i + 1,
            1 <= col <= i + 1,
            after(out@, text_from(cs, i as int, line as nat, col as nat)) == text_from(cs, 0, 1, 1),
        decreases n - i,
    {
        let c = all[i];
        assert(cs[i as int] == c);
        let ghost pre = out@;
        if c == '\r' || c == '\n' {
            let j = if c == '\r' && i + 1 < n && all[i + 1] == '\n' {
                i + 2
            } else {
                i + 1
            };
            if i + 1 < n {
                assert(cs[i + 1] == all@[i + 1]);
            }
            out.push(0x0D);
            out.push(0x0A);
            proof {
                match text_from(cs, j as int, (line + 1) as nat, 1) {
                    Ok(r) => {
                        assert(out@ + r =~= pre + (seq![0x0Du8, 0x0Au8] + r));
                    },
                    Err(_) => {},
                }
            }
            line = line + 1;
            col = 1;
            i = j;
        } else {
            match crate::cp437::to_byte(c) {
                Some(b) => {
                    out.push(b);
                    proof {
                        match text_from(cs, i + 1, line as nat, (col + 1) as nat) {
                            Ok(r) => {
                                assert(out@ + r =~= pre + (seq![b] + r));
                            },
                            Err(_) => {},
                        }
                    }
                },
                None => {
                    return Err(Unmappable { line, column: col, ch: c });
                },
            }
            col = col + 1;
            i = i + 1;
        }
    }
    assert(out@ + Seq::<u8>::empty() =~= out@);
    out.push(0x1A);
    Ok(out)
}

/// Why host text does not read: it is not UTF-8; the valid part is this long.
#[derive(Clone, Copy, Debug, PartialEq, Eq, Structural)]
pub struct NotUtf8 {
    pub valid_up_to: usize,
}

impl NotUtf8 {
    /// The error as a line of text.
    pub open spec fn message_text(self) -> Seq<char> {
        "text input is not valid UTF-8 (byte offset "@ + crate::textbuf::decimal(self.valid_up_to as nat) + ")"@
    }

    pub fn message(&self) -> (s: String)
        ensures
            s@ == self.message_text(),
    {
        let mut s = String::new();
        textbuf::push_str(&mut s, "text input is not valid UTF-8 (byte offset ");
        textbuf::push_decimal(&mut s, self.valid_up_to as u64);
        textbuf::push_str(&mut s, ")");
        s
    }
}

/// `raw` without a leading UTF-8 byte order mark.
pub open spec fn without_bom(raw: Seq<u8>) -> Seq<u8> {
    if raw.len() >= 3 && raw[0] == 0xEF && raw[1] == 0xBB && raw[2] == 0xBF {
        raw.skip(3)
    } else {
        raw
    }
}

/// Host text bytes (UTF-8, optional byte order mark) as a `String`.
pub fn decode_host_text(raw: &[u8]) -> (r: Result<String, NotUtf8>)
    ensures
        match r {
            Ok(s) => vstd::utf8::valid_utf8(without_bom(raw@)) && s@ == vstd::utf8::decode_utf8(without_bom(raw@)),
            Err(e) => !vstd::utf8::valid_utf8(without_bom(raw@)) && e.valid_up_to <= without_bom(raw@).len()
                && vstd::utf8::valid_utf8(without_bom(raw@).take(e.valid_up_to as int)) && forall|m: int|
                e.valid_up_to < m <= without_bom(raw@).len() ==> !vstd::utf8::valid_utf8(
                    #[trigger] without_bom(raw@).take(m),
                ),
        },
{
    let body = if raw.len() >= 3 && raw[0] == 0xEF && raw[1] == 0xBB && raw[2] == 0xBF {
        vstd::slice::slice_subrange(raw, 3, raw.len())
    } else {
        raw
    };
    assert(body@ =~= without_bom(raw@));
    match textbuf::str_from_utf8(body) {
        Ok(s) => Ok(s.to_owned()),
        Err(n) => Err(NotUtf8 { valid_up_to: n }),
    }
}

/// Index of the first `1A` of `b` from `i` on, or its length.
pub open spec fn eof_at(b: Seq<u8>, i: int) -> int
    decreases b.len() - i,
{
    if i < 0 || i >= b.len() {
        b.len() as int
    } else if b[i] == 0x1A {
        i
    } else {
        eof_at(b, i + 1)
    }
}

/// The part of a device text file before its end-of-file byte.
pub open spec fn device_text_body(b: Seq<u8>) -> Seq<u8> {
    b.take(eof_at(b, 0))
}

pub open spec fn ascii_whitespace(b: u8) -> bool {
    b == 0x20 || b == 0x09 || b == 0x0A || b == 0x0C || b == 0x0D
}

/// Device bytes look like a headerless ASCII file: before the first `1A`, something
/// other than white space, not starting with `FF`, and no control byte but TAB, LF, CR.
pub open spec fn looks_like_device_text_spec(bytes: Seq<u8>) -> bool {
    let body = device_text_body(bytes);
    &&& exists|i: int| 0 <= i < body.len() && !ascii_whitespace(#[trigger] body[i])
    &&& !(body.len() > 0 && body[0] == 0xFF)
    &&& forall|i: int| 0 <= i < body.len() ==> (#[trigger] body[i] >= 0x20 || body[i] == 0x09 || body[i] == 0x0A
        || body[i] == 0x0D)
}

proof fn lemma_eof_at(b: Seq<u8>, i: int)
    requires
        0 <= i <= b.len(),
    ensures
        i <= eof_at(b, i) <= b.len(),
        forall|j: int| i <= j < eof_at(b, i) ==> b[j] != 0x1A,
    decreases b.len() - i,
{
    if i < b.len() && b[i] != 0x1A {
        lemma_eof_at(b, i + 1);
    }
}

/// True if device bytes look like a headerless ASCII file.
pub fn looks_like_device_text(bytes: &[u8]) -> (r: bool)
    ensures
        r == looks_like_device_text_spec(bytes@),
{
    let mut e: usize = 0;
    while e < bytes.len() && bytes[e] != 0x1A
        invariant
            e <= bytes@.len(),
            eof_at(bytes@, 0) == eof_at(bytes@, e as int),
        decreases bytes@.len() - e,
    {
        e = e + 1;
    }
    let ghost body = device_text_body(bytes@);
    assert(body =~= bytes@.take(e as int));
    let mut any = false;
    let mut i: usize = 0;
    while i < e
        invariant
            i <= e <= bytes@.len(),
            body == bytes@.take(e as int),
            body == device_text_body(bytes@),
            any == exists|k: int| 0 <= k < i && !ascii_whitespace(#[trigger] body[k]),
            forall|k: int| 0 <= k < i ==> (#[trigger] body[k] >= 0x20 || body[k] == 0x09 || body[k] == 0x0A
                || body[k] == 0x0D),
        decreases e - i,
    {
        let b = bytes[i];
        assert(body[i as int] == b);
        if !(b >= 0x20 || b == 0x09 || b == 0x0A || b == 0x0D) {
            return false;
        }
        if !(b == 0x20 || b == 0x09 || b == 0x0A || b == 0x0C || b == 0x0D) {
            any = true;
        }
        i = i + 1;
    }
    if e > 0 {
        assert(body[0] == bytes@[0]);
    }
    any && !(e > 0 && bytes[0] == 0xFF)
}

// ── floppy files ─────────────────────────────────────────────────────────

/// What kind of file a floppy file is, from its content (the directory does not say).
#[derive(Clone, Copy, Debug, PartialEq, Eq, Structural)]
pub enum DiskFileKind {
    /// Tokenized BASIC behind a PC-1600 header; `len` = payload bytes.
    Basic { len: u32 },
    /// Machine language behind a PC-1600 header.
    Machine { load: u32, run: u32, len: u32 },
    /// A BASIC program saved as ASCII (`SAVE "…",A`).
    AsciiBasic,
    /// Any other headerless ASCII file.
    Text,
    Unknown,
}

pub open spec fn classify_spec(bytes: Seq<u8>) -> DiskFileKind {
    match find_spec(bytes) {
        Some(h) => if h.offset == 0 && h.device == Device::Pc1600 {
            match h.file_type {
                FileType::Machine => DiskFileKind::Machine {
                    load: h.start_addr as u32,
                    run: h.run_addr as u32,
                    len: h.length as u32,
                },
                _ => DiskFileKind::Basic { len: h.length as u32 },
            }
        } else {
            DiskFileKind::Unknown
        },
        None => if detect_spec(None, bytes) == Content::AsciiBasic {
            DiskFileKind::AsciiBasic
        } else if looks_like_device_text_spec(bytes) {
            DiskFileKind::Text
        } else {
            DiskFileKind::Unknown
        },
    }
}

/// The kind of a floppy file, from its bytes.
pub fn classify_disk_file(bytes: &[u8]) -> (k: DiskFileKind)
    ensures
        k == classify_spec(bytes@),
{
    let h = crate::header::find(bytes);
    match h {
        Some(h) => {
            if h.offset == 0 && h.device == Device::Pc1600 {
                match h.file_type {
                    FileType::Machine => DiskFileKind::Machine {
                        load: h.start_addr,
                        run: h.run_addr,
                        len: h.length as u32,
                    },
                    _ => DiskFileKind::Basic { len: h.length as u32 },
                }
            } else {
                DiskFileKind::Unknown
            }
        },
        None => {
            if crate::detect::detect(bytes) == Content::AsciiBasic {
                DiskFileKind::AsciiBasic
            } else if looks_like_device_text(bytes) {
                DiskFileKind::Text
            } else {
                DiskFileKind::Unknown
            }
        },
    }
}

/// A host extension usable on the floppy: upper-cased, 1–3 bytes, and valid in a file
/// name.
pub open spec fn disk_ext_ok(e: Seq<char>) -> bool {
    let u = e.map_values(|c: char| ascii_upper(c));
    &&& vstd::utf8::encode_utf8(u).len() > 0
    &&& vstd::utf8::encode_utf8(u).len() <= 3
    &&& parse_name_spec(vstd::utf8::encode_utf8(seq!['X', '.'] + u)) is Some
}

/// The extension a file stored on the floppy under a host file's stem gets: `BAS` for
/// BASIC in either form; else the host extension (upper-cased) if it is a valid 1–3
/// character one; else `BIN` for machine language and none for the rest.
pub open spec fn disk_ext_spec(kind: PutKind, bytes: Seq<u8>, host_ext: Option<Seq<char>>) -> Seq<char> {
    let is_basic = match kind {
        PutKind::TokenizedBasic | PutKind::AsciiListing => true,
        PutKind::AsIs => classify_spec(bytes) is Basic,
        _ => false,
    };
    if is_basic {
        "BAS"@
    } else {
        match host_ext {
            Some(e) if disk_ext_ok(e) => e.map_values(|c: char| ascii_upper(c)),
            _ => match kind {
                PutKind::MachineWrapped | PutKind::AsIs => "BIN"@,
                _ => Seq::empty(),
            },
        }
    }
}

/// `s` with ASCII letters upper-cased.
fn upper(s: &str) -> (u: String)
    ensures
        u@ == s@.map_values(|c: char| ascii_upper(c)),
{
    let cs = textbuf::chars_of(s);
    let mut out = String::new();
    let mut i: usize = 0;
    while i < cs.len()
        invariant
            i <= cs@.len(),
            cs@ == s@,
            out@ == cs@.take(i as int).map_values(|c: char| ascii_upper(c)),
        decreases cs@.len() - i,
    {
        textbuf::push_char(&mut out, to_ascii_upper(cs[i]));
        i = i + 1;
        assert(out@ =~= cs@.take(i as int).map_values(|c: char| ascii_upper(c)));
    }
    assert(cs@.take(i as int) =~= cs@);
    out
}

/// Extension for a file stored on the floppy under the host file's stem.
pub fn disk_ext_for(kind: PutKind, bytes: &[u8], host_ext: Option<&str>) -> (e: String)
    ensures
        e@ == disk_ext_spec(
            kind,
            bytes@,
            match host_ext {
                Some(h) => Some(h@),
                None => None,
            },
        ),
{
    let host: Option<String> = match host_ext {
        Some(h) => {
            let u = upper(h);
            let mut probe = String::new();
            textbuf::push_str(&mut probe, "X.");
            textbuf::push_str(&mut probe, u.as_str());
            proof {
                reveal_strlit("X.");
                assert(probe@ =~= seq!['X', '.'] + u@);
            }
            let us = u.as_str();
            let ulen = us.as_bytes().len();
            assert(ulen == vstd::utf8::encode_utf8(u@).len());
            let ps = probe.as_str();
            let parsed = FileName::parse(ps);
            assert(parsed is Ok == parse_name_spec(vstd::utf8::encode_utf8(seq!['X', '.'] + u@)) is Some);
            let ok = ulen > 0 && ulen <= 3 && parsed.is_ok();
            assert(ok == disk_ext_ok(h@));
            if ok {
                Some(u)
            } else {
                None
            }
        },
        None => None,
    };
    let is_basic = match kind {
        PutKind::TokenizedBasic | PutKind::AsciiListing => true,
        PutKind::AsIs => match classify_disk_file(bytes) {
            DiskFileKind::Basic { .. } => true,
            _ => false,
        },
        _ => false,
    };
    if is_basic {
        return "BAS".to_owned();
    }
    match host {
        Some(e) => e,
        None => match kind {
            PutKind::MachineWrapped | PutKind::AsIs => "BIN".to_owned(),
            _ => String::new(),
        },
    }
}

// ── put ──────────────────────────────────────────────────────────────────

/// What a `put` source is turned into before it reaches the target.
pub struct PutSpec<'a> {
    /// Host path (or name) of the source; supplies the synthesized header's file name.
    pub source_name: &'a str,
    /// Keyword table and header flavor.
    pub device: Device,
    pub format: Option<Format>,
    pub start_address: Option<u32>,
    pub run_address: Option<u32>,
    pub raw: bool,
    pub endpoint: Endpoint,
}

/// The content of a [`PutSpec`].
pub struct PutSpecView {
    pub source_name: Seq<char>,
    pub device: Device,
    pub format: Option<Format>,
    pub start_address: Option<u32>,
    pub run_address: Option<u32>,
    pub raw: bool,
    pub endpoint: Endpoint,
}

impl<'a> View for PutSpec<'a> {
    type V = PutSpecView;

    open spec fn view(&self) -> PutSpecView {
        PutSpecView {
            source_name: self.source_name@,
            device: self.device,
            format: self.format,
            start_address: self.start_address,
            run_address: self.run_address,
            raw: self.raw,
            endpoint: self.endpoint,
        }
    }
}

/// The bytes of a `put` and how they came about.
#[derive(Debug)]
pub struct PutBytes {
    pub bytes: Vec<u8>,
    /// Leading slice a paced send treats as "the header"; `0` for headerless.
    pub header_len: usize,
    pub kind: PutKind,
}

/// A BASIC listing to be tokenized for `device` (its header naming `name` when there is
/// one), `#SEGMENT` lines rendered as `marker`; `forced` when `--format binary` made text
/// that detection did not take for a listing into one.
#[derive(Clone, Debug, PartialEq, Eq)]
pub struct TokenizeRequest {
    pub device: Device,
    pub name: Option<String>,
    pub marker: SegmentMarker,
    pub forced: bool,
    pub endpoint: Endpoint,
}

/// The first stage of a `put`: the bytes, or the listing work still to be done on the
/// source (tokenizing it; or, for `--format ascii` to the floppy, decoding the listing
/// and handing it to [`listing_bytes`]).
#[derive(Debug)]
pub enum PutStep {
    Ready(PutBytes),
    Tokenize(TokenizeRequest),
    StoreListing,
}

/// Why a source cannot be `put`.
#[derive(Clone, Debug, PartialEq, Eq)]
pub enum PutError {
    /// Plain text over serial needs a PC-1600 family device.
    TextNeedsPc1600,
    /// Headerless machine language needs `--start-address` (or `--raw`).
    NeedsStartAddress,
    /// A CE-158 (PC-1500) header cannot go on the PC-1600 floppy.
    Ce158OnFloppy,
    /// A PC-1600 header is kept; start/run addresses cannot override it.
    HeaderOverride,
    /// The start address does not fit in 24 bits.
    StartTooWide(u32),
    /// The run address does not fit in 24 bits.
    RunTooWide(u32),
    /// PC-1500-only data cannot go on the floppy.
    Pc1500OnlyContent(Content),
    /// Headerless binary on the floppy needs `--start-address` (or `--raw`).
    FloppyNeedsStartAddress,
    Reserve(ReserveError),
    Variables(VarError),
    NotUtf8(NotUtf8),
    Unmappable(Unmappable),
    /// The listing did not tokenize (`forced`: under `--format binary`).
    Tokenize { message: String, forced: bool },
    /// Tokenizing gave an empty program.
    NoNumberedLines,
}

impl PutError {
    /// The error as a line of text.
    pub open spec fn message_text(self) -> Seq<char> {
        match self {
            PutError::TextNeedsPc1600 => "plain text transfer is only supported for the PC-1600 family (use --raw to send the file unmodified)"@,
            PutError::NeedsStartAddress => "headerless machine-language input needs --start-address (or --raw to send it completely unmodified)"@,
            PutError::Ce158OnFloppy => "file has a PC-1500 (CE-158) header; the floppy is PC-1600 only. Convert a BASIC program with `sde convert` to a listing first, or use --raw to store it unchanged"@,
            PutError::HeaderOverride => "file already has a PC-1600 header; --start-address/--run-address cannot override it"@,
            PutError::StartTooWide(a) => "--start-address 0x"@ + crate::textbuf::hex(a as nat)
                + " does not fit in 24 bits (bank + 16-bit address)"@,
            PutError::RunTooWide(a) => "--run-address 0x"@ + crate::textbuf::hex(a as nat)
                + " does not fit in 24 bits (bank + 16-bit address)"@,
            PutError::Pc1500OnlyContent(c) => crate::detect::describe_spec(c)
                + " files are PC-1500 only and cannot be stored on a PC-1600 floppy"@,
            PutError::FloppyNeedsStartAddress => "binary input without a header needs --start-address (to store it as a machine-language file) or --raw (to store it unchanged)"@,
            PutError::Reserve(e) => e.message_text(),
            PutError::Variables(e) => e.message_text(),
            PutError::NotUtf8(e) => e.message_text(),
            PutError::Unmappable(e) => e.message_text(),
            PutError::Tokenize { message, forced } => if forced {
                "--format binary: the input does not tokenize as a BASIC listing: "@ + message@
            } else {
                message@
            },
            PutError::NoNumberedLines => "--format binary: the input has no numbered BASIC lines"@,
        }
    }

    pub fn message(&self) -> (s: String)
        ensures
            s@ == self.message_text(),
    {
        let mut s = String::new();
        match self {
            PutError::TextNeedsPc1600 => textbuf::push_str(
                &mut s,
                "plain text transfer is only supported for the PC-1600 family (use --raw to send the file unmodified)",
            ),
            PutError::NeedsStartAddress => textbuf::push_str(
                &mut s,
                "headerless machine-language input needs --start-address (or --raw to send it completely unmodified)",
            ),
            PutError::Ce158OnFloppy => textbuf::push_str(
                &mut s,
                "file has a PC-1500 (CE-158) header; the floppy is PC-1600 only. Convert a BASIC program with `sde convert` to a listing first, or use --raw to store it unchanged",
            ),
            PutError::HeaderOverride => textbuf::push_str(
                &mut s,
                "file already has a PC-1600 header; --start-address/--run-address cannot override it",
            ),
            PutError::StartTooWide(a) => {
                textbuf::push_str(&mut s, "--start-address 0x");
                textbuf::push_hex(&mut s, *a as u64);
                textbuf::push_str(&mut s, " does not fit in 24 bits (bank + 16-bit address)");
            },
            PutError::RunTooWide(a) => {
                textbuf::push_str(&mut s, "--run-address 0x");
                textbuf::push_hex(&mut s, *a as u64);
                textbuf::push_str(&mut s, " does not fit in 24 bits (bank + 16-bit address)");
            },
            PutError::Pc1500OnlyContent(c) => {
                textbuf::push_str(&mut s, c.describe());
                textbuf::push_str(&mut s, " files are PC-1500 only and cannot be stored on a PC-1600 floppy");
            },
            PutError::FloppyNeedsStartAddress => textbuf::push_str(
                &mut s,
                "binary input without a header needs --start-address (to store it as a machine-language file) or --raw (to store it unchanged)",
            ),
            PutError::Reserve(e) => {
                let m = e.message();
                textbuf::push_str(&mut s, m.as_str());
            },
            PutError::Variables(e) => {
                let m = e.message();
                textbuf::push_str(&mut s, m.as_str());
            },
            PutError::NotUtf8(e) => {
                let m = e.message();
                textbuf::push_str(&mut s, m.as_str());
            },
            PutError::Unmappable(e) => {
                let m = e.message();
                textbuf::push_str(&mut s, m.as_str());
            },
            PutError::Tokenize { message, forced } => {
                if *forced {
                    textbuf::push_str(&mut s, "--format binary: the input does not tokenize as a BASIC listing: ");
                }
                textbuf::push_str(&mut s, message.as_str());
            },
            PutError::NoNumberedLines => textbuf::push_str(
                &mut s,
                "--format binary: the input has no numbered BASIC lines",
            ),
        }
        s
    }
}

/// The bytes of a serial header of type `ft` for `device`, naming `name` (CE-158 only).
pub open spec fn header_bytes(device: Device, ft: FileType, name: Seq<char>, len: int, start: int, run: int) -> Seq<u8> {
    match device {
        Device::Pc1500 => build_ce158_spec(ft, name, len, start, run),
        Device::Pc1600 => build_pc1600_spec(ft, len, start, run),
    }
}

/// The header name synthesized from a source path.
pub open spec fn synth_name(source: Seq<char>) -> Seq<char> {
    basename_spec(
        match path_file_stem(source) {
            Some(s) => s,
            None => Seq::empty(),
        },
    )
}

/// `--format binary` on input detection took for plain text: a listing after all.
pub open spec fn forced_basic_spec(content: Content, format: Option<Format>) -> bool {
    content == Content::Text && format == Some(Format::Binary)
}

/// Where a `put` source goes.
pub enum PutRoute {
    /// Sent unchanged; the header is this long (with what precedes it).
    AsIs(int),
    Raw,
    /// Wrapped in a machine-language header for the device, at these addresses.
    Machine(Device, int, int),
    Text,
    Reserve,
    Variables,
    /// Tokenized for the device (named after the source or not), with this marker form;
    /// forced or not.
    Tokenize(Device, bool, SegmentMarker, bool),
    Listing,
    Fail(PutError),
}

/// The route of a source to the floppy: `--raw` unchanged; a PC-1600 header unchanged
/// (a CE-158 one, or start/run addresses beside it, refused); `--start-address` wraps in
/// a machine-language header (24-bit addresses, the run address defaulting to the start
/// bank's "no auto-start"); a listing is stored as ASCII under `--format ascii`, else
/// tokenized; text as text; PC-1500 data and other binaries refused.
pub open spec fn disk_route(h: Option<HeaderView>, content: Content, s: PutSpecView) -> PutRoute {
    if s.raw {
        PutRoute::Raw
    } else if h is Some {
        let hv = h->0;
        if hv.device != Device::Pc1600 {
            PutRoute::Fail(PutError::Ce158OnFloppy)
        } else if s.start_address is Some || s.run_address is Some {
            PutRoute::Fail(PutError::HeaderOverride)
        } else {
            PutRoute::AsIs(hv.offset + hv.header_len)
        }
    } else if s.start_address is Some {
        let st = s.start_address->0;
        if st > 0xFF_FFFF {
            PutRoute::Fail(PutError::StartTooWide(st))
        } else {
            match s.run_address {
                Some(r) => if r > 0xFF_FFFF {
                    PutRoute::Fail(PutError::RunTooWide(r))
                } else {
                    PutRoute::Machine(Device::Pc1600, st as int, r as int)
                },
                None => PutRoute::Machine(Device::Pc1600, st as int, st / 0x1_0000 * 0x1_0000 + 0xFFFF),
            }
        }
    } else if content == Content::AsciiBasic && s.format == Some(Format::Ascii) {
        PutRoute::Listing
    } else if content == Content::AsciiBasic || forced_basic_spec(content, s.format) {
        PutRoute::Tokenize(Device::Pc1600, false, SegmentMarker::Memory, content != Content::AsciiBasic)
    } else if content == Content::Text {
        PutRoute::Text
    } else if content == Content::Ce158Reserve || content == Content::Ce158Variables {
        PutRoute::Fail(PutError::Pc1500OnlyContent(content))
    } else {
        PutRoute::Fail(PutError::FloppyNeedsStartAddress)
    }
}

/// The route of a `put` source: to the floppy see [`disk_route`]. Over serial: a
/// recognized header is sent as is; without `--start-address`, a listing (or text under
/// `--format binary`) is tokenized, Reserve and Variables text encoded, and text (unless
/// `--raw` or `--format binary`) converted, for the PC-1600 family only; with it, the
/// data is wrapped in a machine-language header (run address `FFFF` by default);
/// `--raw` sends it unchanged; anything else is refused.
pub open spec fn put_route(h: Option<HeaderView>, content: Content, s: PutSpecView) -> PutRoute {
    if s.endpoint == Endpoint::Disk {
        disk_route(h, content, s)
    } else if h is Some {
        PutRoute::AsIs(h->0.offset + h->0.header_len)
    } else if s.start_address is None && (content == Content::AsciiBasic || forced_basic_spec(content, s.format)) {
        PutRoute::Tokenize(s.device, true, SegmentMarker::Wire, content != Content::AsciiBasic)
    } else if s.start_address is None && content == Content::Ce158Reserve {
        PutRoute::Reserve
    } else if s.start_address is None && content == Content::Ce158Variables {
        PutRoute::Variables
    } else if s.start_address is None && !s.raw && content == Content::Text && s.format != Some(Format::Binary) {
        if s.device != Device::Pc1600 {
            PutRoute::Fail(PutError::TextNeedsPc1600)
        } else {
            PutRoute::Text
        }
    } else if s.start_address is Some {
        PutRoute::Machine(
            s.device,
            s.start_address->0 as int,
            match s.run_address {
                Some(r) => r as int,
                None => 0xFFFF,
            },
        )
    } else if s.raw {
        PutRoute::Raw
    } else {
        PutRoute::Fail(PutError::NeedsStartAddress)
    }
}

/// The result of a step that yields ready bytes.
pub open spec fn ready(r: Result<PutStep, PutError>, bytes: Seq<u8>, header_len: int, kind: PutKind) -> bool {
    r matches Ok(PutStep::Ready(pb)) && pb.bytes@ == bytes && pb.header_len == header_len && pb.kind == kind
}

/// `raw` sent as device text: decoded as UTF-8 (after a byte order mark) and encoded.
pub open spec fn text_put(raw: Seq<u8>, r: Result<PutStep, PutError>, kind: PutKind) -> bool {
    let body = without_bom(raw);
    if vstd::utf8::valid_utf8(body) {
        match encode_text_spec(vstd::utf8::decode_utf8(body)) {
            Ok(b) => ready(r, b, 0, kind),
            Err(f) => r matches Err(PutError::Unmappable(u)) && f == (u.line as nat, u.column as nat, u.ch),
        }
    } else {
        r matches Err(PutError::NotUtf8(e)) && not_utf8_at(body, e.valid_up_to as int)
    }
}

/// `n` is the length of the longest valid UTF-8 prefix of `body`.
pub open spec fn not_utf8_at(body: Seq<u8>, n: int) -> bool {
    &&& n <= body.len()
    &&& vstd::utf8::valid_utf8(body.take(n))
    &&& forall|m: int| n < m <= body.len() ==> !vstd::utf8::valid_utf8(#[trigger] body.take(m))
}

/// The largest `usize` at most `n`.
pub open spec fn sat_usize(n: nat) -> usize {
    if n > usize::MAX {
        usize::MAX
    } else {
        n as usize
    }
}

/// `raw` as Reserve Area text (decoded leniently), encoded with the keyword table
/// `kws`, behind a CE-158 Reserve header named by the text or after the source.
pub open spec fn reserve_put(raw: Seq<u8>, source: Seq<char>, device: Device, kws: Seq<KeywordView>, r: Result<PutStep, PutError>) -> bool {
    match reserve::from_ascii_spec(textbuf::utf8_lossy(raw)) {
        None => r matches Err(PutError::Reserve(_)),
        Some(st) => match reserve::encode_spec(st.labels, st.keys, kws) {
            Err(n) => r == Err::<PutStep, PutError>(PutError::Reserve(ReserveError::PoolOverflow { needed: sat_usize(n) })),
            Ok(p) => {
                let name = match st.filename {
                    Some(n) => n,
                    None => synth_name(source),
                };
                let h = header_bytes(device, FileType::Reserve, name, p.len() as int, 0, 0);
                ready(r, h + p, h.len() as int, PutKind::Reserve)
            },
        },
    }
}

/// `raw` as Variables text (decoded leniently), encoded behind a CE-158 Variables header
/// named by the text or after the source.
pub open spec fn variables_put(raw: Seq<u8>, source: Seq<char>, device: Device, r: Result<PutStep, PutError>) -> bool {
    match variables::from_ascii_spec(textbuf::utf8_lossy(raw)) {
        None => r matches Err(PutError::Variables(_)),
        Some(st) => match variables::encode_all(st.values) {
            Err(f) => r matches Err(PutError::Variables(e)) && reports_encode(e, f),
            Ok(p) => {
                let name = match st.filename {
                    Some(n) => n,
                    None => synth_name(source),
                };
                let h = header_bytes(device, FileType::Variables, name, p.len() as int, 0, 0);
                ready(r, h + p, h.len() as int, PutKind::Variables)
            },
        },
    }
}

/// What [`build_put`] gives on a route.
pub open spec fn put_outcome(raw: Seq<u8>, s: PutSpecView, kws: Seq<KeywordView>, route: PutRoute, r: Result<PutStep, PutError>) -> bool {
    match route {
        PutRoute::AsIs(hl) => ready(r, raw, hl, PutKind::AsIs),
        PutRoute::Raw => ready(r, raw, 0, PutKind::Raw),
        PutRoute::Machine(d, st, run) => {
            let h = header_bytes(d, FileType::Machine, synth_name(s.source_name), raw.len() as int, st, run);
            ready(r, h + raw, h.len() as int, PutKind::MachineWrapped)
        },
        PutRoute::Text => text_put(raw, r, PutKind::Text),
        PutRoute::Reserve => reserve_put(raw, s.source_name, s.device, kws, r),
        PutRoute::Variables => variables_put(raw, s.source_name, s.device, r),
        PutRoute::Tokenize(d, named, m, forced) => r matches Ok(PutStep::Tokenize(q)) && q.device == d && q.marker
            == m && q.forced == forced && q.endpoint == s.endpoint && (if named {
            q.name matches Some(n) && n@ == synth_name(s.source_name)
        } else {
            q.name is None
        }),
        PutRoute::Listing => r matches Ok(PutStep::StoreListing),
        PutRoute::Fail(e) => r == Err::<PutStep, PutError>(e),
    }
}

/// The header of `payload` as `file_type` for `device`, then the payload.
fn wrap(
    device: Device,
    file_type: FileType,
    name: &str,
    payload: &[u8],
    start_addr: u32,
    run_addr: u32,
    kind: PutKind,
) -> (pb: PutBytes)
    requires
        buildable(device, file_type),
    ensures
        pb.bytes@ == header_bytes(device, file_type, name@, payload@.len() as int, start_addr as int, run_addr as int)
            + payload@,
        pb.header_len == header_bytes(device, file_type, name@, payload@.len() as int, start_addr as int, run_addr as int).len(),
        pb.kind == kind,
{
    let mut bytes = crate::header::build_header(
        BuildHeader { device, file_type, name: Some(name), payload_len: payload.len(), start_addr, run_addr },
    );
    let header_len = bytes.len();
    let ghost h = bytes@;
    let mut i: usize = 0;
    while i < payload.len()
        invariant
            i <= payload@.len(),
            bytes@ == h + payload@.take(i as int),
        decreases payload@.len() - i,
    {
        bytes.push(payload[i]);
        i = i + 1;
        assert(bytes@ =~= h + payload@.take(i as int));
    }
    assert(payload@.take(i as int) =~= payload@);
    PutBytes { bytes, header_len, kind }
}

/// Device text from host text bytes.
fn text_bytes(raw: &[u8], kind: PutKind) -> (r: Result<PutStep, PutError>)
    requires
        raw@.len() < usize::MAX,
    ensures
        text_put(raw@, r, kind),
{
    let text = match decode_host_text(raw) {
        Ok(t) => t,
        Err(e) => return Err(PutError::NotUtf8(e)),
    };
    proof {
        textbuf::lemma_decoded_len(without_bom(raw@));
    }
    match encode_text(text.as_str()) {
        Ok(b) => Ok(PutStep::Ready(PutBytes { bytes: b, header_len: 0, kind })),
        Err(u) => Err(PutError::Unmappable(u)),
    }
}

/// The header name for a source: the one given, else one made from the source path.
fn name_or_synth(given: Option<String>, source: &str) -> (n: String)
    ensures
        n@ == match given {
            Some(g) => g@,
            None => synth_name(source@),
        },
{
    match given {
        Some(g) => g,
        None => crate::filename::synth_basename(source),
    }
}

/// Reserve Area text, encoded behind its header.
fn reserve_bytes(raw: &[u8], spec: &PutSpec, reg: &Registry) -> (r: Result<PutStep, PutError>)
    requires
        reg.wf(),
        spec.device == Device::Pc1500,
    ensures
        reserve_put(raw@, spec.source_name@, spec.device, reg.spec_keywords(), r),
{
    let text = textbuf::from_utf8_lossy(raw);
    let layout = match reserve::from_ascii(text.as_str()) {
        Ok(l) => l,
        Err(e) => return Err(PutError::Reserve(e)),
    };
    let payload = match reserve::encode_payload(&layout, reg) {
        Ok(p) => p,
        Err(e) => return Err(PutError::Reserve(e)),
    };
    let name = name_or_synth(layout.filename.clone(), spec.source_name);
    let pb = wrap(spec.device, FileType::Reserve, name.as_str(), payload.as_slice(), 0, 0, PutKind::Reserve);
    Ok(PutStep::Ready(pb))
}

/// Variables text, encoded behind its header.
fn variables_bytes(raw: &[u8], spec: &PutSpec) -> (r: Result<PutStep, PutError>)
    requires
        spec.device == Device::Pc1500,
    ensures
        variables_put(raw@, spec.source_name@, spec.device, r),
{
    let text = textbuf::from_utf8_lossy(raw);
    let file = match variables::from_ascii(text.as_str()) {
        Ok(f) => f,
        Err(e) => return Err(PutError::Variables(e)),
    };
    let payload = match variables::encode_payload(file.values.as_slice()) {
        Ok(p) => p,
        Err(e) => return Err(PutError::Variables(e)),
    };
    let name = name_or_synth(file.filename.clone(), spec.source_name);
    let pb = wrap(spec.device, FileType::Variables, name.as_str(), payload.as_slice(), 0, 0, PutKind::Variables);
    Ok(PutStep::Ready(pb))
}

/// Headerless data wrapped in a machine-language header.
fn machine_bytes(raw: &[u8], device: Device, source: &str, start: u32, run: u32) -> (r: Result<PutStep, PutError>)
    ensures
        ready(
            r,
            header_bytes(device, FileType::Machine, synth_name(source@), raw@.len() as int, start as int, run as int)
                + raw@,
            header_bytes(device, FileType::Machine, synth_name(source@), raw@.len() as int, start as int, run as int).len() as int,
            PutKind::MachineWrapped,
        ),
{
    let name = crate::filename::synth_basename(source);
    Ok(PutStep::Ready(wrap(device, FileType::Machine, name.as_str(), raw, start, run, PutKind::MachineWrapped)))
}

/// The first stage of the bytes of a `put` (see [`put_route`]). `reg` is the keyword
/// table for `spec.device`, used by Reserve Area text.
pub fn build_put(raw: &[u8], header: Option<&ParsedHeader>, content: Content, spec: &PutSpec, reg: &Registry) -> (r: Result<
    PutStep,
    PutError,
>)
    requires
        raw@.len() < usize::MAX,
        reg.wf(),
        header matches Some(h) ==> h.offset + h.header_len <= usize::MAX,
        put_route(opt_ref_header(header), content, spec@) is Reserve || put_route(opt_ref_header(header), content, spec@) is Variables
            ==> spec.device == Device::Pc1500,
    ensures
        put_outcome(raw@, spec@, reg.spec_keywords(), put_route(opt_ref_header(header), content, spec@), r),
{
    if spec.endpoint == Endpoint::Disk {
        return build_disk_put(raw, header, content, spec);
    }
    if let Some(h) = header {
        return Ok(PutStep::Ready(PutBytes { bytes: vstd::slice::slice_to_vec(raw), header_len: h.payload_start(), kind: PutKind::AsIs }));
    }
    let forced_machine = spec.start_address.is_some();
    if !forced_machine && (content == Content::AsciiBasic || forced_basic(content, spec)) {
        let name = crate::filename::synth_basename(spec.source_name);
        return Ok(PutStep::Tokenize(TokenizeRequest {
            device: spec.device,
            name: Some(name),
            marker: SegmentMarker::Wire,
            forced: content != Content::AsciiBasic,
            endpoint: Endpoint::Serial,
        }));
    }
    if !forced_machine && content == Content::Ce158Reserve {
        return reserve_bytes(raw, spec, reg);
    }
    if !forced_machine && content == Content::Ce158Variables {
        return variables_bytes(raw, spec);
    }
    if !forced_machine && !spec.raw && content == Content::Text && spec.format != Some(Format::Binary) {
        if spec.device != Device::Pc1600 {
            return Err(PutError::TextNeedsPc1600);
        }
        return text_bytes(raw, PutKind::Text);
    }
    if let Some(start) = spec.start_address {
        let run = match spec.run_address {
            Some(r) => r,
            None => 0xFFFF,
        };
        return machine_bytes(raw, spec.device, spec.source_name, start, run);
    }
    if spec.raw {
        return Ok(PutStep::Ready(PutBytes { bytes: vstd::slice::slice_to_vec(raw), header_len: 0, kind: PutKind::Raw }));
    }
    Err(PutError::NeedsStartAddress)
}

pub open spec fn opt_ref_header(h: Option<&ParsedHeader>) -> Option<HeaderView> {
    match h {
        Some(p) => Some(p@),
        None => None,
    }
}

/// `--format binary` on input detection took for plain text.
fn forced_basic(content: Content, spec: &PutSpec) -> (b: bool)
    ensures
        b == forced_basic_spec(content, spec.format),
{
    content == Content::Text && spec.format == Some(Format::Binary)
}

/// The bytes of a file stored on the PC-1600 floppy (see [`disk_route`]).
fn build_disk_put(raw: &[u8], header: Option<&ParsedHeader>, content: Content, spec: &PutSpec) -> (r: Result<
    PutStep,
    PutError,
>)
    requires
        raw@.len() < usize::MAX,
        header matches Some(h) ==> h.offset + h.header_len <= usize::MAX,
        spec.endpoint == Endpoint::Disk,
    ensures
        put_outcome(raw@, spec@, Seq::empty(), disk_route(opt_ref_header(header), content, spec@), r),
{
    if spec.raw {
        return Ok(PutStep::Ready(PutBytes { bytes: vstd::slice::slice_to_vec(raw), header_len: 0, kind: PutKind::Raw }));
    }
    if let Some(h) = header {
        if h.device != Device::Pc1600 {
            return Err(PutError::Ce158OnFloppy);
        }
        if spec.start_address.is_some() || spec.run_address.is_some() {
            return Err(PutError::HeaderOverride);
        }
        return Ok(PutStep::Ready(PutBytes { bytes: vstd::slice::slice_to_vec(raw), header_len: h.payload_start(), kind: PutKind::AsIs }));
    }
    if let Some(start) = spec.start_address {
        if start > 0xFF_FFFF {
            return Err(PutError::StartTooWide(start));
        }
        let run = match spec.run_address {
            Some(r) => r,
            None => start / 0x1_0000 * 0x1_0000 + PC1600_NO_AUTORUN,
        };
        if run > 0xFF_FFFF {
            return Err(PutError::RunTooWide(run));
        }
        return machine_bytes(raw, Device::Pc1600, spec.source_name, start, run);
    }
    if content == Content::AsciiBasic && spec.format == Some(Format::Ascii) {
        return Ok(PutStep::StoreListing);
    }
    if content == Content::AsciiBasic || forced_basic(content, spec) {
        return Ok(PutStep::Tokenize(TokenizeRequest {
            device: Device::Pc1600,
            name: None,
            marker: SegmentMarker::Memory,
            forced: content != Content::AsciiBasic,
            endpoint: Endpoint::Disk,
        }));
    }
    match content {
        Content::Text => text_bytes(raw, PutKind::Text),
        Content::Ce158Reserve | Content::Ce158Variables => Err(PutError::Pc1500OnlyContent(content)),
        _ => Err(PutError::FloppyNeedsStartAddress),
    }
}

/// The tokenized program as `put` bytes: a tokenizer error is reported as such (with the
/// `--format binary` override named when forced); an empty program (header and nothing
/// behind it) is refused; the header is the leading 16 bytes on the floppy, else the
/// header found in the bytes.
pub fn finish_tokenized(req: &TokenizeRequest, tokenized: Result<Vec<u8>, String>) -> (r: Result<PutBytes, PutError>)
    requires
        req.endpoint == Endpoint::Serial ==> (tokenized matches Ok(b) ==> find_spec(b@) is Some),
    ensures
        match tokenized {
            Err(m) => r == Err::<PutBytes, PutError>(PutError::Tokenize { message: m, forced: req.forced }),
            Ok(b) => if find_spec(b@) matches Some(h) && b@.len() <= h.offset + h.header_len {
                r == Err::<PutBytes, PutError>(PutError::NoNumberedLines)
            } else {
                r matches Ok(pb) && pb.bytes@ == b@ && pb.kind == PutKind::TokenizedBasic && pb.header_len == if req.endpoint
                    == Endpoint::Disk {
                    16
                } else {
                    find_spec(b@)->0.header_len
                }
            },
        },
{
    let bytes = match tokenized {
        Err(m) => return Err(PutError::Tokenize { message: m, forced: req.forced }),
        Ok(b) => b,
    };
    let found = crate::header::find(bytes.as_slice());
    if let Some(h) = &found {
        if bytes.len() <= h.payload_start() {
            return Err(PutError::NoNumberedLines);
        }
    }
    let header_len = match req.endpoint {
        Endpoint::Disk => 16,
        Endpoint::Serial => match &found {
            Some(h) => h.header_len,
            None => 0,
        },
    };
    Ok(PutBytes { bytes, header_len, kind: PutKind::TokenizedBasic })
}

/// A decoded BASIC listing stored on the floppy as a PC-1600 ASCII program file (what
/// `SAVE "…",A` writes): device text.
pub fn listing_bytes(listing: &str) -> (r: Result<PutBytes, PutError>)
    requires
        listing@.len() < usize::MAX,
    ensures
        match encode_text_spec(listing@) {
            Ok(b) => r matches Ok(pb) && pb.bytes@ == b && pb.header_len == 0 && pb.kind == PutKind::AsciiListing,
            Err(f) => r matches Err(PutError::Unmappable(u)) && f == (u.line as nat, u.column as nat, u.ch),
        },
{
    match encode_text(listing) {
        Ok(b) => Ok(PutBytes { bytes: b, header_len: 0, kind: PutKind::AsciiListing }),
        Err(u) => Err(PutError::Unmappable(u)),
    }
}

// ── get ──────────────────────────────────────────────────────────────────

/// The line ending of text written for the host. `Platform` is this build's: LF.
#[derive(Clone, Copy, Debug, PartialEq, Eq, Structural)]
pub enum LineEnding {
    Platform,
    Lf,
    CrLf,
    Cr,
}

pub open spec fn eol_spec(e: LineEnding) -> Seq<char> {
    match e {
        LineEnding::Platform => seq!['\n'],
        LineEnding::Lf => seq!['\n'],
        LineEnding::CrLf => seq!['\r', '\n'],
        LineEnding::Cr => seq!['\r'],
    }
}

impl LineEnding {
    pub fn as_str(self) -> (s: &'static str)
        ensures
            s@ == eol_spec(self),
    {
        proof {
            reveal_strlit("\n");
            reveal_strlit("\r\n");
            reveal_strlit("\r");
        }
        match self {
            LineEnding::Platform => "\n",
            LineEnding::Lf => "\n",
            LineEnding::CrLf => "\r\n",
            LineEnding::Cr => "\r",
        }
    }
}

/// `cs` from `i` on with every CR LF and every lone CR made a LF.
pub open spec fn normalize_from(cs: Seq<char>, i: int) -> Seq<char>
    decreases cs.len() - i,
{
    if i < 0 || i >= cs.len() {
        Seq::empty()
    } else if cs[i] == '\r' {
        seq!['\n'] + normalize_from(
            cs,
            if i + 1 < cs.len() && cs[i + 1] == '\n' {
                i + 2
            } else {
                i + 1
            },
        )
    } else {
        seq![cs[i]] + normalize_from(cs, i + 1)
    }
}

/// `cs` from `i` on with every LF replaced by `eol`.
pub open spec fn eol_from(cs: Seq<char>, i: int, eol: Seq<char>) -> Seq<char>
    decreases cs.len() - i,
{
    if i < 0 || i >= cs.len() {
        Seq::empty()
    } else {
        (if cs[i] == '\n' {
            eol
        } else {
            seq![cs[i]]
        }) + eol_from(cs, i + 1, eol)
    }
}

/// A device text file as host text: CP437 decoded up to the first `1A`, every CR LF, CR
/// and LF becoming `eol`.
pub open spec fn device_text_spec(bytes: Seq<u8>, eol: LineEnding) -> Seq<char> {
    eol_from(normalize_from(crate::cp437::decode_seq(device_text_body(bytes)), 0), 0, eol_spec(eol))
}

/// `s` with CR LF and lone CR made LF.
fn normalize_newlines(s: &str) -> (r: Vec<char>)
    ensures
        r@ == normalize_from(s@, 0),
{
    let cs = textbuf::chars_of(s);
    let mut out: Vec<char> = Vec::new();
    let mut i: usize = 0;
    while i < cs.len()
        invariant
            i <= cs@.len(),
            cs@ == s@,
            out@ + normalize_from(cs@, i as int) == normalize_from(cs@, 0),
        decreases cs@.len() - i,
    {
        let c = cs[i];
        let next = if c == '\r' && i + 1 < cs.len() && cs[i + 1] == '\n' {
            i + 2
        } else {
            i + 1
        };
        let d = if c == '\r' {
            '\n'
        } else {
            c
        };
        assert(normalize_from(cs@, i as int) == seq![d] + normalize_from(cs@, next as int));
        assert(out@.push(d) + normalize_from(cs@, next as int) =~= out@ + (seq![d] + normalize_from(
            cs@,
            next as int,
        )));
        out.push(d);
        i = next;
    }
    assert(out@ + normalize_from(cs@, i as int) =~= out@);
    out
}

/// `cs` (with LF line ends) as a string with `eol` line ends.
fn apply_eol(cs: &[char], eol: LineEnding) -> (r: String)
    ensures
        r@ == eol_from(cs@, 0, eol_spec(eol)),
{
    let e = eol.as_str();
    let mut out = String::new();
    let mut i: usize = 0;
    while i < cs.len()
        invariant
            i <= cs@.len(),
            e@ == eol_spec(eol),
            out@ + eol_from(cs@, i as int, e@) == eol_from(cs@, 0, e@),
        decreases cs@.len() - i,
    {
        let ghost before = out@;
        if cs[i] == '\n' {
            textbuf::push_str(&mut out, e);
        } else {
            textbuf::push_char(&mut out, cs[i]);
        }
        assert(before + eol_from(cs@, i as int, e@) =~= out@ + eol_from(cs@, i + 1, e@));
        i = i + 1;
    }
    assert(out@ + eol_from(cs@, i as int, e@) =~= out@);
    out
}

/// Decode a device ASCII file to host text: CP437 to Unicode, cut at the first `1A`,
/// every CR LF, CR and LF becoming `eol`.
pub fn decode_device_text(bytes: &[u8], eol: LineEnding) -> (s: String)
    ensures
        s@ == device_text_spec(bytes@, eol),
{
    let mut e: usize = 0;
    while e < bytes.len() && bytes[e] != 0x1A
        invariant
            e <= bytes@.len(),
            eof_at(bytes@, 0) == eof_at(bytes@, e as int),
        decreases bytes@.len() - e,
    {
        e = e + 1;
    }
    let body = vstd::slice::slice_subrange(bytes, 0, e);
    assert(body@ =~= device_text_body(bytes@));
    let text = crate::cp437::decode(body);
    let n = normalize_newlines(text.as_str());
    apply_eol(n.as_slice(), eol)
}

/// How received or stored bytes become a host file.
pub struct GetSpec {
    /// `None`: the natural representation of the content.
    pub format: Option<Format>,
    pub skip_header: bool,
    pub eol: LineEnding,
}

/// A host file made from device bytes.
#[derive(Debug)]
pub struct Extracted {
    pub bytes: Vec<u8>,
    pub content: Content,
    /// Host extension for this content (without the dot).
    pub ext: &'static str,
    pub header: Option<ParsedHeader>,
    /// Warnings for the caller to print.
    pub notes: Vec<String>,
}

/// The result of [`extract`]: the file, or a tokenized BASIC program still to be listed:
/// its payload starts at `payload_start` of the input and reads with the keyword table
/// of `device`; the listing, with `eol` line ends, is the content of `file`, whose other
/// fields are final.
#[derive(Debug)]
pub enum ExtractStep {
    Ready(Extracted),
    Detokenize { payload_start: usize, device: Device, eol: LineEnding, file: Extracted },
}

/// Why device bytes do not become the host file asked for.
#[derive(Clone, Debug, PartialEq, Eq)]
pub enum ExtractError {
    /// Machine language has no ASCII form.
    MachineAscii,
    /// No ASCII listing can be made of this content.
    NoListing(Content),
    Reserve(ReserveError),
    Variables(VarError),
}

impl ExtractError {
    /// The error as a line of text.
    pub open spec fn message_text(self) -> Seq<char> {
        match self {
            ExtractError::MachineAscii => "machine language cannot be converted to ASCII; use --format binary"@,
            ExtractError::NoListing(c) => "cannot produce an ASCII listing from this content ("@
                + crate::detect::describe_spec(c) + ")"@,
            ExtractError::Reserve(e) => e.message_text(),
            ExtractError::Variables(e) => e.message_text(),
        }
    }

    pub fn message(&self) -> (s: String)
        ensures
            s@ == self.message_text(),
    {
        let mut s = String::new();
        match self {
            ExtractError::MachineAscii => textbuf::push_str(
                &mut s,
                "machine language cannot be converted to ASCII; use --format binary",
            ),
            ExtractError::NoListing(c) => {
                textbuf::push_str(&mut s, "cannot produce an ASCII listing from this content (");
                textbuf::push_str(&mut s, c.describe());
                textbuf::push_str(&mut s, ")");
            },
            ExtractError::Reserve(e) => {
                let m = e.message();
                textbuf::push_str(&mut s, m.as_str());
            },
            ExtractError::Variables(e) => {
                let m = e.message();
                textbuf::push_str(&mut s, m.as_str());
            },
        }
        s
    }
}

/// The format a `get` produces: the one asked for, else binary for machine language and
/// for unrecognized bytes that are no device text, ASCII otherwise.
pub open spec fn get_format_spec(asked: Option<Format>, h: Option<HeaderView>, content: Content, raw: Seq<u8>) -> Format {
    match asked {
        Some(f) => f,
        None => match h {
            Some(hv) => if hv.file_type == FileType::Machine {
                Format::Binary
            } else {
                Format::Ascii
            },
            None => if content == Content::Unknown && !looks_like_device_text_spec(raw) {
                Format::Binary
            } else {
                Format::Ascii
            },
        },
    }
}

pub open spec fn note_no_header() -> Seq<char> {
    "--skip-header given but no header was found; saving all bytes"@
}

pub open spec fn note_header_dropped() -> Seq<char> {
    "--skip-header omits the header from the saved file. The file cannot be identified or reloaded without it."@
}

pub open spec fn note_unrecognized() -> Seq<char> {
    "unrecognized content, saved unchanged"@
}

/// The warnings of a `get` that produced `content` in `format`.
pub open spec fn notes_spec(has_header: bool, content: Content, format: Format, spec: GetSpec) -> Seq<Seq<char>> {
    (if format == Format::Binary && spec.skip_header && !has_header {
        seq![note_no_header()]
    } else {
        Seq::empty()
    }) + (if spec.skip_header && format == Format::Binary && has_header {
        seq![note_header_dropped()]
    } else {
        Seq::empty()
    }) + (if !has_header && content == Content::Unknown && spec.format is None {
        seq![note_unrecognized()]
    } else {
        Seq::empty()
    })
}

/// The host extension: the header's type's; without one `txt` for text, `bin` for
/// unrecognized bytes, `bas` otherwise.
pub open spec fn get_ext_spec(h: Option<HeaderView>, content: Content) -> Seq<char> {
    match h {
        Some(hv) => crate::filename::ext_spec(hv.file_type),
        None => if content == Content::Text {
            "txt"@
        } else if content == Content::Unknown {
            "bin"@
        } else {
            "bas"@
        },
    }
}

/// The content a `get` reports: device text that detection did not recognize, turned into
/// ASCII, is text.
pub open spec fn final_content(h: Option<HeaderView>, c0: Content, f: Format, raw: Seq<u8>) -> Content {
    if f == Format::Ascii && h is None && c0 != Content::AsciiBasic && looks_like_device_text_spec(raw) {
        Content::Text
    } else {
        c0
    }
}

pub open spec fn notes_view(n: Vec<String>) -> Seq<Seq<char>> {
    n@.map_values(|s: String| s@)
}

/// `x` is the file a `get` of `raw` makes with `bytes` (all but its content).
pub open spec fn extracted_as(x: Extracted, raw: Seq<u8>, spec: GetSpec) -> bool {
    let h = find_spec(raw);
    let c0 = detect_spec(h, raw);
    let f = get_format_spec(spec.format, h, c0, raw);
    let c = final_content(h, c0, f, raw);
    &&& x.content == c
    &&& x.ext@ == get_ext_spec(h, c)
    &&& opt_header_view(x.header) == h
    &&& notes_view(x.notes) == notes_spec(h is Some, c, f, spec)
}

/// The Reserve payload of `raw` under header `hv`.
pub open spec fn reserve_payload(raw: Seq<u8>, hv: HeaderView) -> Seq<u8> {
    raw.subrange(hv.offset + hv.header_len, hv.offset + hv.header_len + hv.length)
}

/// What [`extract`] gives for `raw`, with `kws` the keyword table of a Reserve Area's
/// device.
pub open spec fn extract_outcome(raw: Seq<u8>, spec: GetSpec, kws: Seq<KeywordView>, r: Result<ExtractStep, ExtractError>) -> bool {
    let h = find_spec(raw);
    let hv = h->0;
    let c0 = detect_spec(h, raw);
    let f = get_format_spec(spec.format, h, c0, raw);
    if h is Some && hv.file_type == FileType::Machine && f == Format::Ascii {
        r == Err::<ExtractStep, ExtractError>(ExtractError::MachineAscii)
    } else if f == Format::Binary {
        ready_file(
            r,
            if spec.skip_header && h is Some {
                raw.skip(hv.offset + hv.header_len)
            } else {
                raw
            },
            raw,
            spec,
        )
    } else if h is Some && hv.file_type == FileType::Basic {
        r matches Ok(ExtractStep::Detokenize { payload_start, device, eol, file }) && payload_start == hv.offset
            + hv.header_len && device == hv.device && eol == spec.eol && extracted_as(file, raw, spec)
    } else if h is None && (c0 == Content::AsciiBasic || looks_like_device_text_spec(raw)) {
        ready_file(r, vstd::utf8::encode_utf8(device_text_spec(raw, spec.eol)), raw, spec)
    } else if h is Some && hv.file_type == FileType::Reserve {
        let p = reserve_payload(raw, hv);
        if p.len() == 188 && reserve::decode_spec(p, kws) is Ok {
            let v = reserve::decode_spec(p, kws)->Ok_0;
            ready_file(
                r,
                vstd::utf8::encode_utf8(
                    reserve::to_ascii_spec(reserve::LayoutView { filename: hv.filename, labels: v.0, keys: v.1 }),
                ),
                raw,
                spec,
            )
        } else {
            r matches Err(ExtractError::Reserve(_))
        }
    } else if h is Some && hv.file_type == FileType::Variables {
        match variables::decode_payload_spec(raw.skip(hv.offset + hv.header_len)) {
            Ok(vs) => ready_file(r, vstd::utf8::encode_utf8(variables::to_ascii_spec(hv.filename, vs)), raw, spec),
            Err(e) => r matches Err(ExtractError::Variables(v)) && variables::reports_decode(v, e),
        }
    } else {
        r == Err::<ExtractStep, ExtractError>(ExtractError::NoListing(c0))
    }
}

/// `r` is the file with content `b` that a `get` of `raw` makes.
pub open spec fn ready_file(r: Result<ExtractStep, ExtractError>, b: Seq<u8>, raw: Seq<u8>, spec: GetSpec) -> bool {
    r matches Ok(ExtractStep::Ready(x)) && x.bytes@ == b && extracted_as(x, raw, spec)
}

/// `raw` can be extracted: a Reserve Area payload lies within it, and a Variables payload
/// has no string array of zero-width elements.
pub open spec fn extractable(raw: Seq<u8>, spec: GetSpec) -> bool {
    let h = find_spec(raw);
    let hv = h->0;
    let f = get_format_spec(spec.format, h, detect_spec(h, raw), raw);
    h is Some && f == Format::Ascii ==> {
        &&& hv.file_type == FileType::Reserve ==> hv.offset + hv.header_len + hv.length <= raw.len()
        &&& hv.file_type == FileType::Variables ==> variables::decode_payload_spec(raw.skip(hv.offset + hv.header_len))
            != Err::<Seq<variables::ValueView>, variables::DecodeFault>(variables::DecodeFault::ZeroWidth)
    }
}

/// Whether the payload behind the header `h` of `raw` can be listed: a Reserve Area is
/// complete, a Variables payload holds no string array of zero-width elements.
pub(crate) fn listable_payload(raw: &[u8], h: &ParsedHeader) -> (r: bool)
    requires
        h.offset + h.header_len <= raw@.len(),
    ensures
        r == ({
            &&& h@.file_type == FileType::Reserve ==> h@.offset + h@.header_len + h@.length <= raw@.len()
            &&& h@.file_type == FileType::Variables ==> variables::decode_payload_spec(
                raw@.skip(h@.offset + h@.header_len),
            ) != Err::<Seq<variables::ValueView>, variables::DecodeFault>(variables::DecodeFault::ZeroWidth)
        }),
{
    let n = raw.len();
    let ps = h.offset + h.header_len;
    if h.file_type == FileType::Reserve {
        h.length <= n - ps
    } else if h.file_type == FileType::Variables {
        let payload = vstd::slice::slice_subrange(raw, ps, raw.len());
        assert(payload@ =~= raw@.skip(ps as int));
        !variables::has_zero_width_array(payload)
    } else {
        true
    }
}

/// Whether [`extract`] takes `raw` with `spec` (see [`extractable`]).
pub fn is_extractable(raw: &[u8], spec: &GetSpec) -> (r: bool)
    ensures
        r == extractable(raw@, *spec),
{
    let header = crate::header::find(raw);
    match &header {
        None => true,
        Some(h) => {
            proof {
                crate::header::lemma_find_pc1600_kinds(raw@, 0);
            }
            let c0 = crate::detect::detect_from_header(Some(h), raw);
            let format = match spec.format {
                Some(f) => f,
                None => if h.file_type == FileType::Machine {
                    Format::Binary
                } else {
                    Format::Ascii
                },
            };
            assert(format == get_format_spec(spec.format, find_spec(raw@), c0, raw@));
            if format == Format::Ascii {
                listable_payload(raw, h)
            } else {
                true
            }
        },
    }
}

/// The bytes of a string.
fn string_bytes(s: &String) -> (b: Vec<u8>)
    ensures
        b@ == vstd::utf8::encode_utf8(s@),
{
    vstd::slice::slice_to_vec(s.as_str().as_bytes())
}

fn note(text: &str) -> (s: String)
    ensures
        s@ == text@,
{
    text.to_owned()
}

/// Convert device bytes into host-file bytes per `spec`: the format asked for (else the
/// natural one); ASCII lists tokenized BASIC (see [`ExtractStep`]), decodes device text,
/// and renders Reserve Area (with `reg`, the keyword table of its device) and Variables
/// payloads as text; binary keeps the bytes, without the header under `skip_header`.
pub fn extract(raw: &[u8], spec: &GetSpec, reg: &Registry) -> (r: Result<ExtractStep, ExtractError>)
    requires
        extractable(raw@, *spec),
    ensures
        extract_outcome(raw@, *spec, reg.spec_keywords(), r),
{
    let header = crate::header::find(raw);
    proof {
        crate::header::lemma_find_pc1600_kinds(raw@, 0);
    }
    let c0 = match &header {
        Some(h) => crate::detect::detect_from_header(Some(h), raw),
        None => crate::detect::detect_from_header(None, raw),
    };
    let ghost hs = find_spec(raw@);
    let format = match spec.format {
        Some(f) => f,
        None => match &header {
            Some(h) => if h.file_type == FileType::Machine {
                Format::Binary
            } else {
                Format::Ascii
            },
            None => if c0 == Content::Unknown && !looks_like_device_text(raw) {
                Format::Binary
            } else {
                Format::Ascii
            },
        },
    };
    assert(format == get_format_spec(spec.format, hs, c0, raw@));
    if let Some(h) = &header {
        if h.file_type == FileType::Machine && format == Format::Ascii {
            return Err(ExtractError::MachineAscii);
        }
    }
    let mut content = c0;
    let mut notes: Vec<String> = Vec::new();
    assert(notes_view(notes) =~= Seq::<Seq<char>>::empty());
    let basic_at: Option<(usize, Device)> = match &header {
        Some(h) => if format == Format::Ascii && h.file_type == FileType::Basic {
            Some((h.payload_start(), h.device))
        } else {
            None
        },
        None => None,
    };
    if let Some((ps, device)) = basic_at {
        let file = finish_extracted(Vec::new(), content, header, notes, format, spec);
        return Ok(ExtractStep::Detokenize { payload_start: ps, device, eol: spec.eol, file });
    }
    let bytes: Vec<u8> = if format == Format::Binary {
        if spec.skip_header {
            match &header {
                Some(h) => vstd::slice::slice_to_vec(vstd::slice::slice_subrange(raw, h.payload_start(), raw.len())),
                None => {
                    notes.push(note("--skip-header given but no header was found; saving all bytes"));
                    proof {
                        reveal_strlit("--skip-header given but no header was found; saving all bytes");
                        assert(notes_view(notes) =~= seq![note_no_header()]);
                    }
                    vstd::slice::slice_to_vec(raw)
                },
            }
        } else {
            vstd::slice::slice_to_vec(raw)
        }
    } else {
        match &header {
            Some(h) => {
                if h.file_type == FileType::Reserve {
                    let ps = h.payload_start();
                    let payload = vstd::slice::slice_subrange(raw, ps, ps + h.length);
                    assert(payload@ =~= reserve_payload(raw@, h@));
                    let mut layout = match reserve::decode_payload(payload, reg) {
                        Ok(l) => l,
                        Err(e) => return Err(ExtractError::Reserve(e)),
                    };
                    layout.filename = match &h.filename {
                        Some(n) => Some(n.clone()),
                        None => None,
                    };
                    let text = reserve::to_ascii(&layout);
                    string_bytes(&text)
                } else if h.file_type == FileType::Variables {
                    let ps = h.payload_start();
                    let payload = vstd::slice::slice_subrange(raw, ps, raw.len());
                    assert(payload@ =~= raw@.skip(ps as int));
                    let mut file = match variables::decode_payload(payload) {
                        Ok(f) => f,
                        Err(e) => return Err(ExtractError::Variables(e)),
                    };
                    proof {
                        variables::lemma_decoded_filled(payload@, 0);
                    }
                    file.filename = match &h.filename {
                        Some(n) => Some(n.clone()),
                        None => None,
                    };
                    let text = variables::to_ascii(&file);
                    string_bytes(&text)
                } else {
                    return Err(ExtractError::NoListing(c0));
                }
            },
            None => {
                if c0 == Content::AsciiBasic {
                    let text = decode_device_text(raw, spec.eol);
                    string_bytes(&text)
                } else if looks_like_device_text(raw) {
                    content = Content::Text;
                    let text = decode_device_text(raw, spec.eol);
                    string_bytes(&text)
                } else {
                    return Err(ExtractError::NoListing(c0));
                }
            },
        }
    };
    let file = finish_extracted(bytes, content, header, notes, format, spec);
    Ok(ExtractStep::Ready(file))
}

/// The file with its remaining warnings and its extension.
fn finish_extracted(
    bytes: Vec<u8>,
    content: Content,
    header: Option<ParsedHeader>,
    notes: Vec<String>,
    format: Format,
    spec: &GetSpec,
) -> (x: Extracted)
    requires
        notes_view(notes) == (if format == Format::Binary && spec.skip_header && header is None {
            seq![note_no_header()]
        } else {
            Seq::<Seq<char>>::empty()
        }),
    ensures
        x.bytes == bytes,
        x.content == content,
        x.ext@ == get_ext_spec(opt_header_view(header), content),
        opt_header_view(x.header) == opt_header_view(header),
        notes_view(x.notes) == notes_spec(header is Some, content, format, *spec),
{
    let mut notes = notes;
    if spec.skip_header && format == Format::Binary && header.is_some() {
        notes.push(
            note(
                "--skip-header omits the header from the saved file. The file cannot be identified or reloaded without it.",
            ),
        );
    }
    if header.is_none() && content == Content::Unknown && spec.format.is_none() {
        notes.push(note("unrecognized content, saved unchanged"));
    }
    proof {
        reveal_strlit("--skip-header given but no header was found; saving all bytes");
        reveal_strlit(
            "--skip-header omits the header from the saved file. The file cannot be identified or reloaded without it.",
        );
        reveal_strlit("unrecognized content, saved unchanged");
        assert(notes_view(notes) =~= notes_spec(header is Some, content, format, *spec));
    }
    let ext: &'static str = match &header {
        Some(h) => crate::filename::ext_for(h.file_type),
        None => if content == Content::Text {
            "txt"
        } else if content == Content::Unknown {
            "bin"
        } else {
            "bas"
        },
    };
    proof {
        reveal_strlit("txt");
        reveal_strlit("bin");
        reveal_strlit("bas");
    }
    Extracted { bytes, content, ext, header, notes }
}

// ── device text round trip ─────────────────────────────────────────────

/// Host text with LF line ends only, no end-of-file character, every character in the
/// Sharp set.
pub open spec fn plain_sharp_text(t: Seq<char>) -> bool {
    forall|i: int| 0 <= i < t.len() ==> #[trigger] t[i] != '\r' && t[i] != '\u{1A}' && cp437_byte(t[i]) is Some
}

/// `t` from `i` on with every LF written as CR LF.
pub open spec fn crlf_from(t: Seq<char>, i: int) -> Seq<char>
    decreases t.len() - i,
{
    if i < 0 || i >= t.len() {
        Seq::empty()
    } else {
        (if t[i] == '\n' {
            seq!['\r', '\n']
        } else {
            seq![t[i]]
        }) + crlf_from(t, i + 1)
    }
}

proof fn lemma_encoded_plain(t: Seq<char>, i: int, line: nat, col: nat)
    requires
        plain_sharp_text(t),
        0 <= i <= t.len(),
    ensures
        text_from(t, i, line, col) matches Ok(e) && crate::cp437::decode_seq(e) == crlf_from(t, i) && !e.contains(
            0x1Au8,
        ),
    decreases t.len() - i,
{
    if i < t.len() {
        let c = t[i];
        if c == '\n' {
            lemma_encoded_plain(t, i + 1, line + 1, 1);
            let r = text_from(t, i + 1, line + 1, 1)->Ok_0;
            let e = seq![0x0Du8, 0x0Au8] + r;
            assert(crate::cp437::decode_seq(e) =~= seq!['\r', '\n'] + crate::cp437::decode_seq(r));
            assert(!e.contains(0x1Au8)) by {
                if e.contains(0x1Au8) {
                    let k = choose|k: int| 0 <= k < e.len() && e[k] == 0x1Au8;
                    assert(r[k - 2] == 0x1Au8);
                }
            }
        } else {
            lemma_encoded_plain(t, i + 1, line, col + 1);
            crate::cp437::lemma_byte_char(c);
            let b = cp437_byte(c)->Some_0;
            let r = text_from(t, i + 1, line, col + 1)->Ok_0;
            let e = seq![b] + r;
            assert(crate::cp437::decode_seq(e) =~= seq![c] + crate::cp437::decode_seq(r));
            assert(b != 0x1Au8) by {
                if (c as u32) < 0x80 {
                    assert(b == c as u8);
                }
            }
            assert(!e.contains(0x1Au8)) by {
                if e.contains(0x1Au8) {
                    let k = choose|k: int| 0 <= k < e.len() && e[k] == 0x1Au8;
                    if k > 0 {
                        assert(r[k - 1] == 0x1Au8);
                    }
                }
            }
        }
    } else {
        assert(crate::cp437::decode_seq(Seq::<u8>::empty()) =~= Seq::<char>::empty());
    }
}

proof fn lemma_eof_after(x: Seq<u8>, j: int)
    requires
        0 <= j <= x.len(),
        !x.contains(0x1Au8),
    ensures
        eof_at(x.push(0x1Au8), j) == x.len(),
    decreases x.len() - j,
{
    if j < x.len() {
        assert(x.push(0x1Au8)[j] == x[j]);
        lemma_eof_after(x, j + 1);
    }
}

proof fn lemma_normalize_shift(x: Seq<char>, j: int)
    requires
        0 <= j <= x.len(),
    ensures
        normalize_from(x, j) == normalize_from(x.skip(j), 0),
    decreases x.len() - j,
{
    let y = x.skip(j);
    if j < x.len() {
        let next = if x[j] == '\r' && j + 1 < x.len() && x[j + 1] == '\n' {
            j + 2
        } else {
            j + 1
        };
        lemma_normalize_shift(x, next);
        lemma_normalize_shift(y, next - j);
        assert(y.skip(next - j) =~= x.skip(next));
        assert(y[0] == x[j]);
        if j + 1 < x.len() {
            assert(y[1] == x[j + 1]);
        }
    }
}

proof fn lemma_normalize_crlf(t: Seq<char>, i: int)
    requires
        plain_sharp_text(t),
        0 <= i <= t.len(),
    ensures
        normalize_from(crlf_from(t, i), 0) == t.skip(i),
    decreases t.len() - i,
{
    if i < t.len() {
        lemma_normalize_crlf(t, i + 1);
        let rest = crlf_from(t, i + 1);
        let x = crlf_from(t, i);
        assert(t.skip(i) =~= seq![t[i]] + t.skip(i + 1));
        if t[i] == '\n' {
            assert(x =~= seq!['\r', '\n'] + rest);
            lemma_normalize_shift(x, 2);
            assert(x.skip(2) =~= rest);
        } else {
            assert(t[i] != '\r');
            assert(x =~= seq![t[i]] + rest);
            lemma_normalize_shift(x, 1);
            assert(x.skip(1) =~= rest);
        }
    } else {
        assert(t.skip(i) =~= Seq::<char>::empty());
    }
}

proof fn lemma_lf_identity(t: Seq<char>, i: int)
    requires
        0 <= i <= t.len(),
    ensures
        eol_from(t, i, seq!['\n']) == t.skip(i),
    decreases t.len() - i,
{
    if i < t.len() {
        lemma_lf_identity(t, i + 1);
        assert(t.skip(i) =~= seq![t[i]] + t.skip(i + 1));
    } else {
        assert(t.skip(i) =~= Seq::<char>::empty());
    }
}

proof fn lemma_trim_eof_plain(t: Seq<char>)
    requires
        plain_sharp_text(t),
    ensures
        trim_eof(t) == t,
{
    if t.len() > 0 {
        assert(t[t.len() - 1] != '\u{1A}');
    }
}

/// Host text with LF line ends, no end-of-file character and only characters of the
/// Sharp set survives being stored as a device text file and read back with LF line
/// ends.
pub proof fn lemma_text_roundtrip(t: Seq<char>)
    requires
        plain_sharp_text(t),
    ensures
        encode_text_spec(t) matches Ok(b) && device_text_spec(b, LineEnding::Lf) == t,
{
    lemma_trim_eof_plain(t);
    lemma_encoded_plain(t, 0, 1, 1);
    let e = text_from(t, 0, 1, 1)->Ok_0;
    let b = e.push(0x1Au8);
    lemma_eof_after(e, 0);
    assert(device_text_body(b) =~= e);
    lemma_normalize_crlf(t, 0);
    assert(t.skip(0) =~= t);
    lemma_lf_identity(t, 0);
}

// ── floppy put / get round trips ─────────────────────────────────────────

/// Headerless data stored on the floppy with `--start-address` comes back unchanged when
/// got back (in its natural format, binary) with `--skip-header`.
#[verifier::rlimit(40)]
pub proof fn lemma_machine_put_get(raw: Seq<u8>, content: Content, s: PutSpecView, eol: LineEnding, kws: Seq<KeywordView>)
    requires
        s.endpoint == Endpoint::Disk,
        !s.raw,
        s.start_address matches Some(st) && st <= 0xFF_FFFF,
        s.run_address matches Some(r) ==> r <= 0xFF_FFFF,
        raw.len() < usize::MAX,
    ensures
        put_route(None, content, s) matches PutRoute::Machine(d, st, run) && ({
            let stored = header_bytes(d, FileType::Machine, synth_name(s.source_name), raw.len() as int, st, run) + raw;
            forall|r: Result<ExtractStep, ExtractError>|
                extract_outcome(stored, GetSpec { format: None, skip_header: true, eol }, kws, r) ==> (r matches Ok(
                    ExtractStep::Ready(x),
                ) && x.bytes@ == raw)
        }),
{
    let st = s.start_address->0;
    let run: int = match s.run_address {
        Some(r) => r as int,
        None => st / 0x1_0000 * 0x1_0000 + 0xFFFF,
    };
    let spec = BuildHeader {
        device: Device::Pc1600,
        file_type: FileType::Machine,
        name: None,
        payload_len: raw.len() as usize,
        start_addr: st,
        run_addr: run as u32,
    };
    crate::header::lemma_find_built_header(spec, raw);
    let h = build_header_spec(spec);
    assert(h == header_bytes(Device::Pc1600, FileType::Machine, synth_name(s.source_name), raw.len() as int, st as int, run));
    let stored = h + raw;
    let hv = find_spec(stored)->0;
    assert(hv.file_type == FileType::Machine && hv.offset == 0 && hv.header_len == 16);
    assert(stored.skip(16) =~= raw);
    let g = GetSpec { format: None, skip_header: true, eol };
    assert forall|r: Result<ExtractStep, ExtractError>| extract_outcome(stored, g, kws, r) implies (r matches Ok(
        ExtractStep::Ready(x),
    ) && x.bytes@ == raw) by {
        let c0 = detect_spec(find_spec(stored), stored);
        assert(get_format_spec(None, find_spec(stored), c0, stored) == Format::Binary);
    }
}

/// A file that carries a PC-1600 header is stored on the floppy unchanged and comes back
/// identical when got back in binary.
pub proof fn lemma_as_is_put_get(raw: Seq<u8>, content: Content, s: PutSpecView, eol: LineEnding, kws: Seq<KeywordView>)
    requires
        s.endpoint == Endpoint::Disk,
        !s.raw,
        s.start_address is None,
        s.run_address is None,
        find_spec(raw) matches Some(h) && h.device == Device::Pc1600,
    ensures
        put_route(find_spec(raw), content, s) matches PutRoute::AsIs(_),
        forall|r: Result<ExtractStep, ExtractError>|
            extract_outcome(raw, GetSpec { format: Some(Format::Binary), skip_header: false, eol }, kws, r) ==> (r matches Ok(
                ExtractStep::Ready(x),
            ) && x.bytes@ == raw),
{
}

} // verus!
