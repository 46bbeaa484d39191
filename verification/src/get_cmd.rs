//! `get`: what a received transfer is saved as, and where.

use vstd::prelude::*;

use crate::bcd::{is_whitespace, is_ws};
use crate::detect::{detect_spec, Content};
use crate::filename::{path_file_name, with_ext_spec};
use crate::header::{find_spec, FileType, HeaderView, ParsedHeader};
use crate::pocket_device::{pc1500_family, PocketDevice};
use crate::registry::{Device, Registry};
use crate::textbuf;
use crate::transfer::{reserve_payload, ExtractError};
use crate::{reserve, variables};

pub use crate::transfer::Format;

verus! {

/// The command line of a `get`.
pub struct GetOptions {
    pub device: PocketDevice,
    pub port: Option<String>,
    pub format: Format,
    pub skip_header: bool,
    pub raw: bool,
    pub dry_run: bool,
    pub verbose: bool,
    /// `--flowcontrol`: RTS/CTS handshaking (PC-1600 family only).
    pub flow_control: bool,
    pub output_file: Option<String>,
}

/// What to write, where, and what to tell the user.
#[derive(Debug)]
pub struct Outcome {
    pub path: String,
    pub bytes: Vec<u8>,
    /// One-line summary, reported whatever the verbosity.
    pub summary: String,
    /// Lines for standard output.
    pub report: Vec<String>,
    /// Warnings for standard error.
    pub warnings: Vec<String>,
}

/// The result of [`process_normal`]: the outcome, or a listing still to be made of the
/// received bytes, which then becomes the outcome's content: a tokenized BASIC payload
/// from `payload_start` on, read with the keyword table of `device`; or a received ASCII
/// listing, cleaned up.
#[derive(Debug)]
pub enum GetStep {
    Ready(Outcome),
    Detokenize { payload_start: usize, device: Device, outcome: Outcome },
    CleanListing { outcome: Outcome },
}

/// A header of `header_device` belongs to the family of `cli_device`.
pub open spec fn family_matches_spec(header_device: Device, cli_device: PocketDevice) -> bool {
    match header_device {
        Device::Pc1500 => pc1500_family(cli_device),
        Device::Pc1600 => !pc1500_family(cli_device),
    }
}

fn family_matches(header_device: Device, cli_device: PocketDevice) -> (r: bool)
    ensures
        r == family_matches_spec(header_device, cli_device),
{
    match header_device {
        Device::Pc1500 => cli_device.is_pc1500_family(),
        Device::Pc1600 => cli_device.is_pc1600_family(),
    }
}

/// The name of a header flavor.
pub fn header_flavor(device: Device) -> (s: &'static str)
    ensures
        s@ == match device {
            Device::Pc1500 => "CE-158"@,
            Device::Pc1600 => "PC-1600"@,
        },
{
    match device {
        Device::Pc1500 => "CE-158",
        Device::Pc1600 => "PC-1600",
    }
}

/// A raw `get`'s bytes: without a header of the device's own family (a header of the
/// other family is left in place).
pub open spec fn raw_bytes_spec(raw: Seq<u8>, device: PocketDevice) -> Seq<u8> {
    match find_spec(raw) {
        Some(h) => if family_matches_spec(h.device, device) {
            raw.take(h.offset) + raw.skip(h.offset + h.header_len)
        } else {
            raw
        },
        None => raw,
    }
}

/// The sum of the bytes.
pub open spec fn byte_sum(b: Seq<u8>) -> nat
    decreases b.len(),
{
    if b.len() == 0 {
        0
    } else {
        byte_sum(b.drop_last()) + b.last() as nat
    }
}

/// The 16-bit checksum of the bytes: their sum, wrapping.
pub open spec fn checksum_spec(b: Seq<u8>) -> nat {
    byte_sum(b) % 65536
}

/// `--raw`: the bytes without a same-family header, written to the output file named on
/// the command line, reported with their count and 16-bit checksum.
pub fn process_raw(raw: &[u8], opts: &GetOptions) -> (o: Outcome)
    requires
        opts.output_file is Some,
    ensures
        o.path@ == opts.output_file->0@,
        o.bytes@ == raw_bytes_spec(raw@, opts.device),
        o.summary@ == "checksum 0x"@ + textbuf::padded_hex(checksum_spec(o.bytes@), 4),
        o.report@.map_values(|s: String| s@) == seq![
            "Received "@ + textbuf::decimal(o.bytes@.len()) + " bytes (target: "@ + o.path@ + ")"@,
            "Checksum (16-bit sum): 0x"@ + textbuf::padded_hex(checksum_spec(o.bytes@), 4),
        ],
        o.warnings@.len() == 0,
{
    let path = match &opts.output_file {
        Some(p) => p.clone(),
        None => String::new(),
    };
    let header = crate::header::find(raw);
    let bytes: Vec<u8> = match &header {
        Some(h) => if family_matches(h.device, opts.device) {
            let mut b = vstd::slice::slice_to_vec(vstd::slice::slice_subrange(raw, 0, h.offset));
            let ps = h.payload_start();
            let ghost start = b@;
            let mut i = ps;
            while i < raw.len()
                invariant
                    ps <= i <= raw@.len(),
                    b@ == start + raw@.subrange(ps as int, i as int),
                decreases raw@.len() - i,
            {
                b.push(raw[i]);
                i = i + 1;
                assert(b@ =~= start + raw@.subrange(ps as int, i as int));
            }
            assert(b@ =~= raw@.take(h.offset as int) + raw@.skip(ps as int));
            b
        } else {
            vstd::slice::slice_to_vec(raw)
        },
        None => vstd::slice::slice_to_vec(raw),
    };
    let mut sum: u16 = 0;
    let mut i: usize = 0;
    while i < bytes.len()
        invariant
            i <= bytes@.len(),
            sum == byte_sum(bytes@.take(i as int)) % 65536,
        decreases bytes@.len() - i,
    {
        assert(bytes@.take(i + 1).drop_last() =~= bytes@.take(i as int));
        sum = ((sum as u32 + bytes[i] as u32) % 65536) as u16;
        i = i + 1;
    }
    assert(bytes@.take(i as int) =~= bytes@);
    let mut summary = String::new();
    textbuf::push_str(&mut summary, "checksum 0x");
    textbuf::push_padded_hex(&mut summary, sum as u64, 4);
    let mut line1 = String::new();
    textbuf::push_str(&mut line1, "Received ");
    textbuf::push_decimal(&mut line1, bytes.len() as u64);
    textbuf::push_str(&mut line1, " bytes (target: ");
    textbuf::push_str(&mut line1, path.as_str());
    textbuf::push_str(&mut line1, ")");
    let mut line2 = String::new();
    textbuf::push_str(&mut line2, "Checksum (16-bit sum): 0x");
    textbuf::push_padded_hex(&mut line2, sum as u64, 4);
    let mut report: Vec<String> = Vec::new();
    report.push(line1);
    report.push(line2);
    proof {
        assert(report@.map_values(|s: String| s@) =~= seq![
            "Received "@ + textbuf::decimal(bytes@.len()) + " bytes (target: "@ + path@ + ")"@,
            "Checksum (16-bit sum): 0x"@ + textbuf::padded_hex(checksum_spec(bytes@), 4),
        ]);
    }
    Outcome { path, bytes, summary, report, warnings: Vec::new() }
}

/// Every character is white space.
pub open spec fn blank(s: Seq<char>) -> bool {
    forall|i: int| 0 <= i < s.len() ==> is_ws(#[trigger] s[i])
}

/// The file name a header gives, unless blank.
pub open spec fn header_name(h: Option<HeaderView>) -> Option<Seq<char>> {
    match h {
        Some(hv) => match hv.filename {
            Some(n) => if blank(n) {
                None
            } else {
                Some(n)
            },
            None => None,
        },
        None => None,
    }
}

/// The output path: the one given, else the header's file name, with `.ext` appended when
/// the name has no extension; else `unnamed.ext`.
pub open spec fn output_path_spec(given: Option<Seq<char>>, h: Option<HeaderView>, ext: Seq<char>) -> Seq<char> {
    match given {
        Some(n) => with_ext_spec(n, path_file_name(n), ext),
        None => match header_name(h) {
            Some(n) => with_ext_spec(n, path_file_name(n), ext),
            None => "unnamed."@ + ext,
        },
    }
}

fn is_blank(s: &str) -> (r: bool)
    ensures
        r == blank(s@),
{
    let cs = textbuf::chars_of(s);
    let mut i: usize = 0;
    while i < cs.len()
        invariant
            i <= cs@.len(),
            cs@ == s@,
            forall|j: int| 0 <= j < i ==> is_ws(#[trigger] cs@[j]),
        decreases cs@.len() - i,
    {
        if !is_whitespace(cs[i]) {
            return false;
        }
        i = i + 1;
    }
    true
}

/// Where a received file is saved (see [`output_path_spec`]).
pub fn resolve_output_path(given: Option<&str>, header: Option<&ParsedHeader>, ext: &str) -> (p: String)
    ensures
        p@ == output_path_spec(
            match given {
                Some(g) => Some(g@),
                None => None,
            },
            match header {
                Some(h) => Some(h@),
                None => None,
            },
            ext@,
        ),
{
    if let Some(name) = given {
        return crate::filename::append_ext_if_missing(name, ext);
    }
    if let Some(h) = header {
        if let Some(n) = &h.filename {
            if !is_blank(n.as_str()) {
                return crate::filename::append_ext_if_missing(n.as_str(), ext);
            }
        }
    }
    let mut out = String::new();
    textbuf::push_str(&mut out, "unnamed.");
    textbuf::push_str(&mut out, ext);
    proof {
        reveal_strlit("unnamed.");
    }
    out
}

pub open spec fn warn_no_header() -> Seq<char> {
    "WARNING: No recognizable header in received data"@
}

pub open spec fn warn_skip_without_header() -> Seq<char> {
    "WARNING: --skip-header given but no header was found; saving all bytes"@
}

pub open spec fn warn_skip() -> Seq<char> {
    "WARNING: --skip-header omits the serial header from the saved file. The file cannot be identified or reloaded without it."@
}

pub open spec fn warn_unnamed(ext: Seq<char>) -> Seq<char> {
    "WARNING: No filename provided on command line or in header, saving to unnamed."@ + ext
}

pub open spec fn opt_seq(s: Option<String>) -> Option<Seq<char>> {
    match s {
        Some(t) => Some(t@),
        None => None,
    }
}

/// The extension of a received file: its header's type's, `bas` without a header.
pub open spec fn get_ext(h: Option<HeaderView>) -> Seq<char> {
    match h {
        Some(hv) => crate::filename::ext_spec(hv.file_type),
        None => "bas"@,
    }
}

/// The warnings of a `get` of `raw`.
pub open spec fn get_warnings(raw: Seq<u8>, opts: GetOptions) -> Seq<Seq<char>> {
    let h = find_spec(raw);
    (if h is None {
        seq![warn_no_header()]
    } else {
        Seq::empty()
    }) + (if opts.format == Format::Binary && opts.skip_header && h is None {
        seq![warn_skip_without_header()]
    } else {
        Seq::empty()
    }) + (if opts.skip_header && opts.format == Format::Binary {
        seq![warn_skip()]
    } else {
        Seq::empty()
    }) + (if opts.output_file is None && header_name(h) is None {
        seq![warn_unnamed(get_ext(h))]
    } else {
        Seq::empty()
    })
}

/// `o` is the outcome of a `get` of `raw`, but for its bytes.
pub open spec fn outcome_as(o: Outcome, raw: Seq<u8>, opts: GetOptions) -> bool {
    let h = find_spec(raw);
    &&& o.path@ == output_path_spec(opt_seq(opts.output_file), h, get_ext(h))
    &&& o.summary@ == crate::detect::describe_spec(detect_spec(h, raw))
    &&& o.report@.len() == 0
    &&& o.warnings@.map_values(|s: String| s@) == get_warnings(raw, opts)
}

pub open spec fn ready_outcome(r: Result<GetStep, ExtractError>, b: Seq<u8>, raw: Seq<u8>, opts: GetOptions) -> bool {
    r matches Ok(GetStep::Ready(o)) && o.bytes@ == b && outcome_as(o, raw, opts)
}

/// What [`process_normal`] gives for `raw`, with `kws` the keyword table of a Reserve
/// Area's device: ASCII lists BASIC, cleans up a received listing and renders Reserve
/// Area and Variables payloads as text (machine language has no ASCII form, nor has
/// anything else); binary keeps the bytes, without the header under `--skip-header`.
pub open spec fn get_outcome(raw: Seq<u8>, opts: GetOptions, kws: Seq<crate::registry::KeywordView>, r: Result<GetStep, ExtractError>) -> bool {
    let h = find_spec(raw);
    let hv = h->0;
    let c = detect_spec(h, raw);
    if h is Some && hv.file_type == FileType::Machine && opts.format == Format::Ascii {
        r == Err::<GetStep, ExtractError>(ExtractError::MachineAscii)
    } else if opts.format == Format::Binary {
        ready_outcome(
            r,
            if opts.skip_header && h is Some {
                raw.skip(hv.offset + hv.header_len)
            } else {
                raw
            },
            raw,
            opts,
        )
    } else if h is Some && hv.file_type == FileType::Basic {
        r matches Ok(GetStep::Detokenize { payload_start, device, outcome }) && payload_start == hv.offset
            + hv.header_len && device == hv.device && outcome_as(outcome, raw, opts)
    } else if h is None && c == Content::AsciiBasic {
        r matches Ok(GetStep::CleanListing { outcome }) && outcome_as(outcome, raw, opts)
    } else if h is Some && hv.file_type == FileType::Reserve {
        let p = reserve_payload(raw, hv);
        if p.len() == 188 && reserve::decode_spec(p, kws) is Ok {
            let v = reserve::decode_spec(p, kws)->Ok_0;
            ready_outcome(
                r,
                vstd::utf8::encode_utf8(
                    reserve::to_ascii_spec(reserve::LayoutView { filename: hv.filename, labels: v.0, keys: v.1 }),
                ),
                raw,
                opts,
            )
        } else {
            r matches Err(ExtractError::Reserve(_))
        }
    } else if h is Some && hv.file_type == FileType::Variables {
        match variables::decode_payload_spec(raw.skip(hv.offset + hv.header_len)) {
            Ok(vs) => ready_outcome(r, vstd::utf8::encode_utf8(variables::to_ascii_spec(hv.filename, vs)), raw, opts),
            Err(e) => r matches Err(ExtractError::Variables(v)) && variables::reports_decode(v, e),
        }
    } else {
        r == Err::<GetStep, ExtractError>(ExtractError::NoListing(c))
    }
}

/// The received bytes can be processed: a Reserve Area payload lies within them, and a
/// Variables payload has no string array of zero-width elements.
pub open spec fn processable(raw: Seq<u8>, opts: GetOptions) -> bool {
    let h = find_spec(raw);
    let hv = h->0;
    h is Some && opts.format == Format::Ascii ==> {
        &&& hv.file_type == FileType::Reserve ==> hv.offset + hv.header_len + hv.length <= raw.len()
        &&& hv.file_type == FileType::Variables ==> variables::decode_payload_spec(raw.skip(hv.offset + hv.header_len))
            != Err::<Seq<variables::ValueView>, variables::DecodeFault>(variables::DecodeFault::ZeroWidth)
    }
}

/// Whether [`process_normal`] takes `raw` with `opts` (see [`processable`]).
pub fn is_processable(raw: &[u8], opts: &GetOptions) -> (r: bool)
    ensures
        r == processable(raw@, *opts),
{
    match crate::header::find(raw) {
        None => true,
        Some(h) => if opts.format == Format::Ascii {
            crate::transfer::listable_payload(raw, &h)
        } else {
            true
        },
    }
}

fn text_of(s: &str) -> (r: String)
    ensures
        r@ == s@,
{
    s.to_owned()
}

/// A received transfer (not `--raw`) as a file: see [`get_outcome`]. `reg` is the keyword
/// table of a Reserve Area's device.
pub fn process_normal(raw: &[u8], opts: &GetOptions, reg: &Registry) -> (r: Result<GetStep, ExtractError>)
    requires
        processable(raw@, *opts),
    ensures
        get_outcome(raw@, *opts, reg.spec_keywords(), r),
{
    let header = crate::header::find(raw);
    proof {
        crate::header::lemma_find_pc1600_kinds(raw@, 0);
    }
    let content = match &header {
        Some(h) => crate::detect::detect_from_header(Some(h), raw),
        None => crate::detect::detect_from_header(None, raw),
    };
    let mut warnings: Vec<String> = Vec::new();
    if header.is_none() {
        warnings.push(text_of("WARNING: No recognizable header in received data"));
    }
    if let Some(h) = &header {
        if h.file_type == FileType::Machine && opts.format == Format::Ascii {
            return Err(ExtractError::MachineAscii);
        }
    }
    let mut pending: u8 = 0;
    let mut ps: usize = 0;
    let mut dev = Device::Pc1500;
    let bytes: Vec<u8> = if opts.format == Format::Binary {
        if opts.skip_header {
            match &header {
                Some(h) => vstd::slice::slice_to_vec(vstd::slice::slice_subrange(raw, h.payload_start(), raw.len())),
                None => {
                    warnings.push(
                        text_of("WARNING: --skip-header given but no header was found; saving all bytes"),
                    );
                    vstd::slice::slice_to_vec(raw)
                },
            }
        } else {
            vstd::slice::slice_to_vec(raw)
        }
    } else {
        match &header {
            Some(h) => {
                if h.file_type == FileType::Basic {
                    pending = 1;
                    ps = h.payload_start();
                    dev = h.device;
                    Vec::new()
                } else if h.file_type == FileType::Reserve {
                    let p0 = h.payload_start();
                    let payload = vstd::slice::slice_subrange(raw, p0, p0 + h.length);
                    assert(payload@ =~= reserve_payload(raw@, h@));
                    let mut layout = match reserve::decode_payload(payload, reg) {
                        Ok(l) => l,
                        Err(e) => return Err(ExtractError::Reserve(e)),
                    };
                    layout.filename = match &h.filename {
                        Some(n) => Some(n.clone()),
                        None => None,
                    };
                    let text = reserve::to_ascii(&layout);
                    vstd::slice::slice_to_vec(text.as_str().as_bytes())
                } else if h.file_type == FileType::Variables {
                    let p0 = h.payload_start();
                    let payload = vstd::slice::slice_subrange(raw, p0, raw.len());
                    assert(payload@ =~= raw@.skip(p0 as int));
                    let mut file = match variables::decode_payload(payload) {
                        Ok(f) => f,
                        Err(e) => return Err(ExtractError::Variables(e)),
                    };
                    proof {
                        variables::lemma_decoded_filled(payload@, 0);
                    }
                    file.filename = match &h.filename {
                        Some(n) => Some(n.clone()),
                        None => None,
                    };
                    let text = variables::to_ascii(&file);
                    vstd::slice::slice_to_vec(text.as_str().as_bytes())
                } else {
                    return Err(ExtractError::NoListing(content));
                }
            },
            None => {
                if content == Content::AsciiBasic {
                    pending = 2;
                    Vec::new()
                } else {
                    return Err(ExtractError::NoListing(content));
                }
            },
        }
    };
    if opts.skip_header && opts.format == Format::Binary {
        warnings.push(
            text_of(
                "WARNING: --skip-header omits the serial header from the saved file. The file cannot be identified or reloaded without it.",
            ),
        );
    }
    let ext: &'static str = match &header {
        Some(h) => crate::filename::ext_for(h.file_type),
        None => "bas",
    };
    proof {
        reveal_strlit("bas");
    }
    let given = match &opts.output_file {
        Some(o) => Some(o.as_str()),
        None => None,
    };
    let named = match &header {
        Some(h) => match &h.filename {
            Some(n) => !is_blank(n.as_str()),
            None => false,
        },
        None => false,
    };
    let path = match &header {
        Some(h) => resolve_output_path(given, Some(h), ext),
        None => resolve_output_path(given, None, ext),
    };
    if opts.output_file.is_none() && !named {
        let mut w = String::new();
        textbuf::push_str(&mut w, "WARNING: No filename provided on command line or in header, saving to unnamed.");
        textbuf::push_str(&mut w, ext);
        warnings.push(w);
    }
    proof {
        reveal_strlit("WARNING: No recognizable header in received data");
        reveal_strlit("WARNING: --skip-header given but no header was found; saving all bytes");
        reveal_strlit(
            "WARNING: --skip-header omits the serial header from the saved file. The file cannot be identified or reloaded without it.",
        );
        reveal_strlit("WARNING: No filename provided on command line or in header, saving to unnamed.");
        assert(warnings@.map_values(|s: String| s@) =~= get_warnings(raw@, *opts));
    }
    let summary = text_of(content.describe());
    let outcome = Outcome { path, bytes, summary, report: Vec::new(), warnings };
    if pending == 1 {
        Ok(GetStep::Detokenize { payload_start: ps, device: dev, outcome })
    } else if pending == 2 {
        Ok(GetStep::CleanListing { outcome })
    } else {
        Ok(GetStep::Ready(outcome))
    }
}

} // verus!
