//! `put`: which device a source goes to, and the bytes it is sent as.

use vstd::prelude::*;

use crate::bcd::{trim_bounds, trim_ws};
use crate::detect::Content;
use crate::header::ParsedHeader;
use crate::pocket_device::{device_name, pc1500_family, PocketDevice};
use crate::registry::{Device, Registry};
use crate::textbuf;
use crate::transfer::{self, opt_ref_header, put_outcome, put_route, Endpoint, Format, PutError, PutSpec, PutSpecView, PutStep};

verus! {

/// The command line of a `put`.
pub struct PutOptions {
    pub device: Option<PocketDevice>,
    pub port: Option<String>,
    pub format: Option<Format>,
    pub start_address: Option<u32>,
    pub run_address: Option<u32>,
    pub raw: bool,
    pub dry_run: bool,
    pub verbose: bool,
    /// `--flowcontrol`: RTS/CTS handshaking (PC-1600 family only).
    pub flow_control: bool,
    pub input_file: String,
}

/// The header and `--device` disagree, or a PC-1600 header leaves the device open.
#[derive(Clone, Copy, Debug, PartialEq, Eq, Structural)]
pub enum DeviceConflict {
    /// A CE-158 header, and a PC-1600 family device asked for.
    Pc1500Header(PocketDevice),
    /// A PC-1600 header, and a PC-1500 family device asked for.
    Pc1600Header(PocketDevice),
    /// A PC-1600 header and no device: real hardware or the emulator?
    Pc1600Unspecified,
}

impl DeviceConflict {
    /// The error as a line of text.
    pub open spec fn message_text(self) -> Seq<char> {
        match self {
            DeviceConflict::Pc1500Header(d) => "file has a PC-1500/CE-158 header, but --device "@ + device_name(d)
                + " is PC-1600 family"@,
            DeviceConflict::Pc1600Header(d) => "file has a PC-1600 header, but --device "@ + device_name(d)
                + " is PC-1500 family"@,
            DeviceConflict::Pc1600Unspecified => "file has a PC-1600 header; specify --device pc1600 or --device pc1600emul to select the transport"@,
        }
    }

    pub fn message(&self) -> (s: String)
        ensures
            s@ == self.message_text(),
    {
        let mut s = String::new();
        match self {
            DeviceConflict::Pc1500Header(d) => {
                textbuf::push_str(&mut s, "file has a PC-1500/CE-158 header, but --device ");
                textbuf::push_str(&mut s, d.as_str());
                textbuf::push_str(&mut s, " is PC-1600 family");
            },
            DeviceConflict::Pc1600Header(d) => {
                textbuf::push_str(&mut s, "file has a PC-1600 header, but --device ");
                textbuf::push_str(&mut s, d.as_str());
                textbuf::push_str(&mut s, " is PC-1500 family");
            },
            DeviceConflict::Pc1600Unspecified => textbuf::push_str(
                &mut s,
                "file has a PC-1600 header; specify --device pc1600 or --device pc1600emul to select the transport",
            ),
        }
        s
    }
}

/// The device a `put` goes to: without a header, the one asked for (`pc1500` by
/// default); with a CE-158 header, a PC-1500 family device asked for or `pc1500`; with a
/// PC-1600 header, a PC-1600 family device, which must be asked for.
pub open spec fn effective_device_spec(explicit: Option<PocketDevice>, h: Option<Device>) -> Result<PocketDevice, DeviceConflict> {
    match h {
        None => Ok(
            match explicit {
                Some(d) => d,
                None => PocketDevice::Pc1500,
            },
        ),
        Some(Device::Pc1500) => match explicit {
            Some(d) => if !pc1500_family(d) {
                Err(DeviceConflict::Pc1500Header(d))
            } else {
                Ok(d)
            },
            None => Ok(PocketDevice::Pc1500),
        },
        Some(Device::Pc1600) => match explicit {
            Some(d) => if pc1500_family(d) {
                Err(DeviceConflict::Pc1600Header(d))
            } else {
                Ok(d)
            },
            None => Err(DeviceConflict::Pc1600Unspecified),
        },
    }
}

/// Resolve the effective device from `--device` and the source's header.
pub fn resolve_effective_device(explicit: Option<PocketDevice>, header: Option<&ParsedHeader>) -> (r: Result<
    PocketDevice,
    DeviceConflict,
>)
    ensures
        r == effective_device_spec(
            explicit,
            match header {
                Some(h) => Some(h.device),
                None => None,
            },
        ),
{
    let h = match header {
        Some(h) => h,
        None => {
            return Ok(
                match explicit {
                    Some(d) => d,
                    None => PocketDevice::Pc1500,
                },
            );
        },
    };
    match h.device {
        Device::Pc1500 => match explicit {
            Some(d) => if d.is_pc1600_family() {
                Err(DeviceConflict::Pc1500Header(d))
            } else {
                Ok(d)
            },
            None => Ok(PocketDevice::Pc1500),
        },
        Device::Pc1600 => match explicit {
            Some(d) => if d.is_pc1500_family() {
                Err(DeviceConflict::Pc1600Header(d))
            } else {
                Ok(d)
            },
            None => Err(DeviceConflict::Pc1600Unspecified),
        },
    }
}

/// The serial `put` description of a source for `device`.
pub open spec fn serial_spec(opts: &PutOptions, device: PocketDevice) -> PutSpecView {
    PutSpecView {
        source_name: opts.input_file@,
        device: if pc1500_family(device) {
            Device::Pc1500
        } else {
            Device::Pc1600
        },
        format: opts.format,
        start_address: opts.start_address,
        run_address: opts.run_address,
        raw: opts.raw,
        endpoint: Endpoint::Serial,
    }
}

/// The first stage of the bytes a serial `put` of `raw` to `device` sends (see
/// [`transfer::build_put`]); `reg` is the keyword table of `device`.
pub fn build_put_bytes(
    raw: &[u8],
    header: Option<&ParsedHeader>,
    content: Content,
    opts: &PutOptions,
    device: PocketDevice,
    reg: &Registry,
) -> (r: Result<PutStep, PutError>)
    requires
        raw@.len() < usize::MAX,
        reg.wf(),
        header matches Some(h) ==> h.offset + h.header_len <= usize::MAX,
        put_route(opt_ref_header(header), content, serial_spec(opts, device)) is Reserve || put_route(
            opt_ref_header(header),
            content,
            serial_spec(opts, device),
        ) is Variables ==> pc1500_family(device),
    ensures
        put_outcome(
            raw@,
            serial_spec(opts, device),
            reg.spec_keywords(),
            put_route(opt_ref_header(header), content, serial_spec(opts, device)),
            r,
        ),
{
    let spec = PutSpec {
        source_name: opts.input_file.as_str(),
        device: device.to_registry_device(),
        format: opts.format,
        start_address: opts.start_address,
        run_address: opts.run_address,
        raw: opts.raw,
        endpoint: Endpoint::Serial,
    };
    assert(spec@ == serial_spec(opts, device));
    transfer::build_put(raw, header, content, &spec, reg)
}

/// Why an address argument does not read as hexadecimal (as std's integer parsing
/// reports it).
#[derive(Clone, Copy, Debug, PartialEq, Eq, Structural)]
pub enum HexArgError {
    Empty,
    InvalidDigit,
    TooLarge,
}

impl HexArgError {
    /// The error as std's integer parsing words it.
    pub open spec fn message_text(self) -> Seq<char> {
        match self {
            HexArgError::Empty => "cannot parse integer from empty string"@,
            HexArgError::InvalidDigit => "invalid digit found in string"@,
            HexArgError::TooLarge => "number too large to fit in target type"@,
        }
    }

    pub fn message(&self) -> (s: &'static str)
        ensures
            s@ == self.message_text(),
    {
        match self {
            HexArgError::Empty => "cannot parse integer from empty string",
            HexArgError::InvalidDigit => "invalid digit found in string",
            HexArgError::TooLarge => "number too large to fit in target type",
        }
    }
}

pub open spec fn hex_digit_spec(c: char) -> Option<nat> {
    if '0' <= c && c <= '9' {
        Some((c as u32 - '0' as u32) as nat)
    } else if 'a' <= c && c <= 'f' {
        Some((c as u32 - 'a' as u32 + 10) as nat)
    } else if 'A' <= c && c <= 'F' {
        Some((c as u32 - 'A' as u32 + 10) as nat)
    } else {
        None
    }
}

/// Reading hexadecimal digits `d` from `i` on, `acc` so far: the first character that is
/// no digit, or the first digit that takes the value past 32 bits, is the error.
pub open spec fn hex_from(d: Seq<char>, i: int, acc: nat) -> Result<nat, HexArgError>
    decreases d.len() - i,
{
    if i < 0 || i >= d.len() {
        Ok(acc)
    } else {
        match hex_digit_spec(d[i]) {
            None => Err(HexArgError::InvalidDigit),
            Some(v) => if acc * 16 + v > u32::MAX {
                Err(HexArgError::TooLarge)
            } else {
                hex_from(d, i + 1, acc * 16 + v)
            },
        }
    }
}

/// An address argument: white space around it ignored, an optional `0x`/`0X`, then
/// hexadecimal digits (after an optional `+`) that fit in 32 bits.
pub open spec fn hex_arg_spec(s: Seq<char>) -> Result<nat, HexArgError> {
    let t = trim_ws(s);
    let d = if t.len() >= 2 && t[0] == '0' && (t[1] == 'x' || t[1] == 'X') {
        t.skip(2)
    } else {
        t
    };
    if d.len() == 0 {
        Err(HexArgError::Empty)
    } else if (d[0] == '+' || d[0] == '-') && d.len() == 1 {
        Err(HexArgError::InvalidDigit)
    } else if d[0] == '+' {
        hex_from(d, 1, 0)
    } else {
        hex_from(d, 0, 0)
    }
}

fn hex_digit(c: char) -> (r: Option<u32>)
    ensures
        match hex_digit_spec(c) {
            Some(v) => r == Some(v as u32),
            None => r is None,
        },
{
    if '0' <= c && c <= '9' {
        Some(c as u32 - '0' as u32)
    } else if 'a' <= c && c <= 'f' {
        Some(c as u32 - 'a' as u32 + 10)
    } else if 'A' <= c && c <= 'F' {
        Some(c as u32 - 'A' as u32 + 10)
    } else {
        None
    }
}

/// Parse a `--start-address`/`--run-address` argument (see [`hex_arg_spec`]).
pub fn parse_hex_u32(s: &str) -> (r: Result<u32, HexArgError>)
    ensures
        match hex_arg_spec(s@) {
            Ok(v) => r == Ok::<u32, HexArgError>(v as u32),
            Err(e) => r == Err::<u32, HexArgError>(e),
        },
{
    let cs = textbuf::chars_of(s);
    let (a, b) = trim_bounds(&cs);
    let ghost t = trim_ws(s@);
    let mut start = a;
    if b - a >= 2 && cs[a] == '0' && (cs[a + 1] == 'x' || cs[a + 1] == 'X') {
        start = a + 2;
    }
    let ghost d = cs@.subrange(start as int, b as int);
    assert(d =~= if t.len() >= 2 && t[0] == '0' && (t[1] == 'x' || t[1] == 'X') {
        t.skip(2)
    } else {
        t
    });
    if start == b {
        return Err(HexArgError::Empty);
    }
    if (cs[start] == '+' || cs[start] == '-') && b - start == 1 {
        return Err(HexArgError::InvalidDigit);
    }
    let mut i = start;
    if cs[start] == '+' {
        i = start + 1;
    }
    let mut acc: u32 = 0;
    while i < b
        invariant
            start <= i <= b <= cs@.len(),
            d == cs@.subrange(start as int, b as int),
            hex_arg_spec(s@) == hex_from(d, i - start, acc as nat),
            cs@ == s@,
        decreases b - i,
    {
        assert(d[i - start] == cs@[i as int]);
        match hex_digit(cs[i]) {
            None => return Err(HexArgError::InvalidDigit),
            Some(v) => {
                if acc > (u32::MAX - v) / 16 {
                    assert(acc * 16 + v > u32::MAX) by (nonlinear_arith)
                        requires
                            acc > (u32::MAX - v) / 16,
                            v < 16,
                    ;
                    return Err(HexArgError::TooLarge);
                }
                assert(acc * 16 + v <= u32::MAX) by (nonlinear_arith)
                    requires
                        acc <= (u32::MAX - v) / 16,
                        v < 16,
                ;
                acc = acc * 16 + v;
            },
        }
        i = i + 1;
    }
    Ok(acc)
}

} // verus!
