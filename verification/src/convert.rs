//! `convert`: content-driven conversion between a BASIC listing and tokenized BASIC
//! behind a serial header. The direction comes from the detected content, never from a
//! file name.

use vstd::prelude::*;

use crate::detect::{detect_spec, Content};
use crate::header::{build_header_spec, find_spec, BuildHeader, FileType};
use crate::registry::Device;
use crate::scanner::SegmentMarker;
use crate::textbuf;
use crate::transfer::LineEnding;

verus! {

/// The result of a conversion.
#[derive(Debug)]
pub struct ConvertOutcome {
    /// A header and the tokenized payload (the payload alone without `with_header`), or
    /// the listing as UTF-8.
    pub bytes: Vec<u8>,
    /// What the input was detected as.
    pub content: Content,
    /// The device used (a tokenized input's own).
    pub device: Device,
}

/// The conversion an input asks for: its listing tokenized for `device` (behind a header
/// naming `name` when `with_header`), `#SEGMENT` lines in `marker` form; or its payload,
/// from `payload_start` on, listed with `device`'s keyword table and `eol` line ends.
#[derive(Debug)]
pub enum ConvertStep {
    Tokenize { device: Device, name: Option<String>, with_header: bool, marker: SegmentMarker },
    Detokenize { payload_start: usize, device: Device, eol: LineEnding },
}

/// Only BASIC converts.
#[derive(Clone, Copy, Debug, PartialEq, Eq, Structural)]
pub struct NotBasic {
    pub content: Content,
}

impl NotBasic {
    /// The error as a line of text.
    pub open spec fn message_text(self) -> Seq<char> {
        "convert only handles BASIC; got "@ + crate::detect::describe_spec(self.content)
            + ". A tokenized file must include a CE-158 or PC-1600 header."@
    }

    pub fn message(&self) -> (s: String)
        ensures
            s@ == self.message_text(),
    {
        let mut s = String::new();
        textbuf::push_str(&mut s, "convert only handles BASIC; got ");
        textbuf::push_str(&mut s, self.content.describe());
        textbuf::push_str(
            &mut s,
            ". A tokenized file must include a CE-158 or PC-1600 header.",
        );
        s
    }
}

/// What [`convert_with`] decides for `input`: a listing is tokenized, tokenized BASIC
/// listed, anything else refused.
pub open spec fn convert_outcome(
    input: Seq<u8>,
    device: Device,
    name: Option<Seq<char>>,
    with_header: bool,
    eol: LineEnding,
    marker: SegmentMarker,
    r: Result<ConvertStep, NotBasic>,
) -> bool {
    let h = find_spec(input);
    let c = detect_spec(h, input);
    if c == Content::AsciiBasic {
        r matches Ok(ConvertStep::Tokenize { device: d, name: n, with_header: w, marker: m }) && d == device && w
            == with_header && m == marker && match n {
            Some(t) => name == Some(t@),
            None => name is None,
        }
    } else if c == Content::Ce158Basic || c == Content::Pc1600Basic {
        r matches Ok(ConvertStep::Detokenize { payload_start, device: d, eol: e }) && h is Some && payload_start
            == h->0.offset + h->0.header_len && d == h->0.device && e == eol
    } else {
        r == Err::<ConvertStep, NotBasic>(NotBasic { content: c })
    }
}

/// Convert `input`, its direction chosen from its detected content (see
/// [`convert_outcome`]), with an explicit line ending for a listing and marker form for a
/// `#SEGMENT` line.
pub fn convert_with(
    input: &[u8],
    device: Device,
    name: Option<&str>,
    with_header: bool,
    eol: LineEnding,
    segment_marker: SegmentMarker,
) -> (r: Result<ConvertStep, NotBasic>)
    ensures
        convert_outcome(
            input@,
            device,
            match name {
                Some(n) => Some(n@),
                None => None,
            },
            with_header,
            eol,
            segment_marker,
            r,
        ),
{
    let h = crate::header::find(input);
    proof {
        crate::header::lemma_find_pc1600_kinds(input@, 0);
    }
    let content = match &h {
        Some(p) => crate::detect::detect_from_header(Some(p), input),
        None => crate::detect::detect_from_header(None, input),
    };
    match content {
        Content::AsciiBasic => Ok(
            ConvertStep::Tokenize {
                device,
                name: match name {
                    Some(n) => Some(n.to_owned()),
                    None => None,
                },
                with_header,
                marker: segment_marker,
            },
        ),
        Content::Ce158Basic | Content::Pc1600Basic => match &h {
            Some(p) => Ok(ConvertStep::Detokenize { payload_start: p.payload_start(), device: p.device, eol }),
            None => Err(NotBasic { content }),
        },
        _ => Err(NotBasic { content }),
    }
}

/// As [`convert_with`], a listing with this system's line ending and `#SEGMENT` lines in
/// their wire form.
pub fn convert(input: &[u8], device: Device, name: Option<&str>, with_header: bool) -> (r: Result<ConvertStep, NotBasic>)
    ensures
        convert_outcome(
            input@,
            device,
            match name {
                Some(n) => Some(n@),
                None => None,
            },
            with_header,
            LineEnding::Platform,
            SegmentMarker::Wire,
            r,
        ),
{
    convert_with(input, device, name, with_header, LineEnding::Platform, SegmentMarker::Wire)
}

/// The tokenized payload as the conversion's output: behind the BASIC header for
/// `device` (naming `name`) when `with_header`, else alone.
pub fn tokenized_outcome(device: Device, name: Option<&str>, with_header: bool, payload: Vec<u8>) -> (o: ConvertOutcome)
    ensures
        o.content == Content::AsciiBasic,
        o.device == device,
        o.bytes@ == if with_header {
            build_header_spec(
                BuildHeader {
                    device,
                    file_type: FileType::Basic,
                    name,
                    payload_len: payload.len(),
                    start_addr: 0,
                    run_addr: 0,
                },
            ) + payload@
        } else {
            payload@
        },
{
    let bytes = if with_header {
        let mut out = crate::header::build(device, name, payload.len());
        let ghost h = out@;
        let mut i: usize = 0;
        while i < payload.len()
            invariant
                i <= payload@.len(),
                out@ == h + payload@.take(i as int),
            decreases payload@.len() - i,
        {
            out.push(payload[i]);
            i = i + 1;
            assert(out@ =~= h + payload@.take(i as int));
        }
        assert(payload@.take(i as int) =~= payload@);
        out
    } else {
        payload
    };
    ConvertOutcome { bytes, content: Content::AsciiBasic, device }
}

} // verus!
