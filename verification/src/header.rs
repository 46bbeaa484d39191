//! CE-158 / PC-1600 serial file headers that wrap a tokenized BASIC or machine-language
//! payload.

use vstd::prelude::*;

use crate::cp437::{self, cp437_char, decode_seq, encode_lossy_seq};
use crate::registry::Device;
use crate::textbuf;

verus! {

pub const CE158_LEN: usize = 27;
pub const PC1600_LEN: usize = 16;

/// The payload type recorded in a header. `Reserve` and `Variables` exist only in the
/// CE-158 (PC-1500 family) header; like `Basic`, none of them carries a start/run
/// address — those fields are `Machine`-only.
#[derive(Clone, Copy, Debug, PartialEq, Eq, Structural)]
pub enum FileType {
    Basic,
    Machine,
    Reserve,
    Variables,
}

/// A recognized header found in a byte buffer, fully parsed.
#[derive(Clone, Debug, PartialEq, Eq)]
pub struct ParsedHeader {
    pub device: Device,
    pub file_type: FileType,
    /// Offset of the header's first byte within the input buffer.
    pub offset: usize,
    /// Header length in bytes (`offset + header_len` is where the payload starts).
    pub header_len: usize,
    /// Payload length in bytes, already corrected for CE-158's "capacity - 1" encoding.
    /// Not meaningful for `FileType::Variables`: the wire always holds `0` there, so it
    /// decodes to `1`.
    pub length: usize,
    /// Load start address; only meaningful for `Machine`, else 0.
    pub start_addr: u32,
    /// Auto-run address; only meaningful for `Machine`, else 0.
    pub run_addr: u32,
    /// CE-158 filename field (CP437, trailing NUL/space trimmed), `None` if blank or
    /// for a PC-1600 header (which has no filename field).
    pub filename: Option<String>,
}

/// The mathematical content of a [`ParsedHeader`].
pub struct HeaderView {
    pub device: Device,
    pub file_type: FileType,
    pub offset: int,
    pub header_len: int,
    pub length: int,
    pub start_addr: int,
    pub run_addr: int,
    pub filename: Option<Seq<char>>,
}

pub open spec fn opt_string_view(s: Option<String>) -> Option<Seq<char>> {
    match s {
        Some(t) => Some(t@),
        None => None,
    }
}

impl View for ParsedHeader {
    type V = HeaderView;

    open spec fn view(&self) -> HeaderView {
        HeaderView {
            device: self.device,
            file_type: self.file_type,
            offset: self.offset as int,
            header_len: self.header_len as int,
            length: self.length as int,
            start_addr: self.start_addr as int,
            run_addr: self.run_addr as int,
            filename: opt_string_view(self.filename),
        }
    }
}

impl ParsedHeader {
    /// Offset of the payload's first byte.
    pub fn payload_start(&self) -> (r: usize)
        requires
            self.offset + self.header_len <= usize::MAX,
        ensures
            r == self.offset + self.header_len,
    {
        self.offset + self.header_len
    }
}

pub open spec fn be16(d: Seq<u8>, at: int) -> int {
    d[at] * 256 + d[at + 1]
}

pub open spec fn le24(d: Seq<u8>, at: int) -> int {
    d[at] + d[at + 1] * 256 + d[at + 2] * 65536
}

/// `0x01 <type> "COM"` at `i`.
pub open spec fn ce158_magic_at(d: Seq<u8>, i: int) -> bool {
    &&& 0 <= i
    &&& i + 5 <= d.len()
    &&& d[i] == 0x01
    &&& d[i + 2] == 0x43
    &&& d[i + 3] == 0x4F
    &&& d[i + 4] == 0x4D
}

/// `FF 10 00 00` at `i`.
pub open spec fn pc1600_magic_at(d: Seq<u8>, i: int) -> bool {
    &&& 0 <= i
    &&& i + 4 <= d.len()
    &&& d[i] == 0xFF
    &&& d[i + 1] == 0x10
    &&& d[i + 2] == 0x00
    &&& d[i + 3] == 0x00
}

pub open spec fn ce158_type_spec(t: u8) -> Option<FileType> {
    if t == 0x40 {
        Some(FileType::Basic)
    } else if t == 0x42 {
        Some(FileType::Machine)
    } else if t == 0x41 {
        Some(FileType::Reserve)
    } else if t == 0x48 {
        Some(FileType::Variables)
    } else {
        None
    }
}

pub open spec fn pc1600_type_spec(t: u8) -> Option<FileType> {
    if t == 0x21 {
        Some(FileType::Basic)
    } else if t == 0x10 {
        Some(FileType::Machine)
    } else {
        None
    }
}

/// Text with trailing NUL and space characters removed.
pub open spec fn trim_name(cs: Seq<char>) -> Seq<char>
    decreases cs.len(),
{
    if cs.len() > 0 && (cs.last() == '\0' || cs.last() == ' ') {
        trim_name(cs.drop_last())
    } else {
        cs
    }
}

/// The filename a CE-158 name field decodes to.
pub open spec fn name_field_spec(field: Seq<u8>) -> Option<Seq<char>> {
    let t = trim_name(decode_seq(field));
    if t.len() == 0 {
        None
    } else {
        Some(t)
    }
}

pub open spec fn parse_ce158_spec(d: Seq<u8>, off: int) -> Option<HeaderView> {
    if d.len() < off + 27 {
        None
    } else {
        match ce158_type_spec(d[off + 1]) {
            None => None,
            Some(ft) => Some(
                HeaderView {
                    device: Device::Pc1500,
                    file_type: ft,
                    offset: off,
                    header_len: 27,
                    length: be16(d, off + 0x17) + 1,
                    start_addr: if ft == FileType::Machine {
                        be16(d, off + 0x15)
                    } else {
                        0
                    },
                    run_addr: if ft == FileType::Machine {
                        be16(d, off + 0x19)
                    } else {
                        0
                    },
                    filename: name_field_spec(d.subrange(off + 5, off + 0x15)),
                },
            ),
        }
    }
}

pub open spec fn parse_pc1600_spec(d: Seq<u8>, off: int) -> Option<HeaderView> {
    if d.len() < off + 16 {
        None
    } else {
        match pc1600_type_spec(d[off + 4]) {
            None => None,
            Some(ft) => Some(
                HeaderView {
                    device: Device::Pc1600,
                    file_type: ft,
                    offset: off,
                    header_len: 16,
                    length: le24(d, off + 5),
                    start_addr: if ft == FileType::Machine {
                        le24(d, off + 8)
                    } else {
                        0
                    },
                    run_addr: if ft == FileType::Machine {
                        le24(d, off + 11)
                    } else {
                        0
                    },
                    filename: None,
                },
            ),
        }
    }
}

/// Scanning from `i`: the header at the first magic match, if its type byte is known.
pub open spec fn find_from_spec(d: Seq<u8>, i: int) -> Option<HeaderView>
    decreases d.len() - i,
{
    if i < 0 || i >= d.len() {
        None
    } else if ce158_magic_at(d, i) {
        parse_ce158_spec(d, i)
    } else if pc1600_magic_at(d, i) {
        parse_pc1600_spec(d, i)
    } else {
        find_from_spec(d, i + 1)
    }
}

/// The header [`find`] reports for `d`.
pub open spec fn find_spec(d: Seq<u8>) -> Option<HeaderView> {
    find_from_spec(d, 0)
}

pub open spec fn opt_header_view(h: Option<ParsedHeader>) -> Option<HeaderView> {
    match h {
        Some(p) => Some(p@),
        None => None,
    }
}

/// Locate and fully parse a CE-158 or PC-1600 header, tolerating leading capture noise
/// before the magic. Scanning stops at the first magic match: if that header's type byte
/// is not recognized (or the buffer ends inside it) the result is `None`.
pub fn find(data: &[u8]) -> (r: Option<ParsedHeader>)
    ensures
        opt_header_view(r) == find_spec(data@),
        r matches Some(h) ==> h.offset + h.header_len <= data.len() && (h.header_len == 27
            || h.header_len == 16) && h.length <= 0x100_0000,
{
    let mut i: usize = 0;
    while i < data.len()
        invariant
            i <= data.len(),
            find_spec(data@) == find_from_spec(data@, i as int),
        decreases data.len() - i,
    {
        if data[i] == 0x01 && data.len() - i >= 5 && data[i + 2] == 0x43 && data[i + 3] == 0x4F
            && data[i + 4] == 0x4D {
            return parse_ce158(data, i);
        }
        if data.len() - i >= 4 && data[i] == 0xFF && data[i + 1] == 0x10 && data[i + 2] == 0x00
            && data[i + 3] == 0x00 {
            return parse_pc1600(data, i);
        }
        i = i + 1;
    }
    None
}

fn ce158_file_type(t: u8) -> (r: Option<FileType>)
    ensures
        r == ce158_type_spec(t),
{
    if t == 0x40 {
        Some(FileType::Basic)
    } else if t == 0x42 {
        Some(FileType::Machine)
    } else if t == 0x41 {
        Some(FileType::Reserve)
    } else if t == 0x48 {
        Some(FileType::Variables)
    } else {
        None
    }
}

fn pc1600_file_type(t: u8) -> (r: Option<FileType>)
    ensures
        r == pc1600_type_spec(t),
{
    if t == 0x21 {
        Some(FileType::Basic)
    } else if t == 0x10 {
        Some(FileType::Machine)
    } else {
        None
    }
}

/// Big-endian 16-bit value at `at`.
pub fn be16_at(data: &[u8], at: usize) -> (r: u16)
    requires
        at + 2 <= data@.len(),
    ensures
        r == be16(data@, at as int),
{
    (data[at] as u16) * 256 + (data[at + 1] as u16)
}

/// Little-endian 24-bit value at `at`.
fn le24_at(data: &[u8], at: usize) -> (r: u32)
    requires
        at + 3 <= data@.len(),
    ensures
        r == le24(data@, at as int),
{
    (data[at] as u32) + (data[at + 1] as u32) * 256 + (data[at + 2] as u32) * 65536
}

/// The filename of a CE-158 name field.
fn name_field(field: &[u8]) -> (r: Option<String>)
    ensures
        opt_string_view(r) == name_field_spec(field@),
{
    let decoded = cp437::decode(field);
    let chars = textbuf::chars_of(decoded.as_str());
    let mut end = chars.len();
    assert(chars@.take(end as int) =~= chars@);
    while end > 0 && (chars[end - 1] == '\0' || chars[end - 1] == ' ')
        invariant
            end <= chars@.len(),
            trim_name(chars@.take(end as int)) == trim_name(decode_seq(field@)),
        decreases end,
    {
        assert(chars@.take(end as int).drop_last() =~= chars@.take(end - 1));
        end = end - 1;
    }
    assert(chars@.take(chars@.len() as int) =~= chars@);
    if end == 0 {
        assert(trim_name(chars@.take(0)) =~= Seq::<char>::empty());
        None
    } else {
        let mut s = String::new();
        textbuf::push_chars(&mut s, chars.as_slice(), 0, end);
        assert(s@ =~= chars@.take(end as int));
        Some(s)
    }
}

fn parse_ce158(data: &[u8], offset: usize) -> (r: Option<ParsedHeader>)
    requires
        offset < data@.len(),
    ensures
        opt_header_view(r) == parse_ce158_spec(data@, offset as int),
        r matches Some(h) ==> h.offset + h.header_len <= data.len() && h.header_len == 27
            && h.length <= 0x100_0000,
{
    if data.len() - offset < CE158_LEN {
        return None;
    }
    let file_type = match ce158_file_type(data[offset + 1]) {
        Some(t) => t,
        None => {
            return None;
        },
    };
    let mut field: Vec<u8> = Vec::new();
    let mut k: usize = 0;
    while k < 16
        invariant
            offset + 27 <= data.len(),
            k <= 16,
            field@ == data@.subrange(offset + 5, offset + 5 + k),
        decreases 16 - k,
    {
        field.push(data[offset + 5 + k]);
        k = k + 1;
        assert(field@ =~= data@.subrange(offset + 5, offset + 5 + k));
    }
    let filename = name_field(field.as_slice());
    let start_raw = be16_at(data, offset + 0x15) as u32;
    let length = be16_at(data, offset + 0x17) as usize + 1;
    let run_raw = be16_at(data, offset + 0x19) as u32;
    let (start_addr, run_addr) = if file_type == FileType::Machine {
        (start_raw, run_raw)
    } else {
        (0u32, 0u32)
    };
    Some(
        ParsedHeader {
            device: Device::Pc1500,
            file_type,
            offset,
            header_len: CE158_LEN,
            length,
            start_addr,
            run_addr,
            filename,
        },
    )
}

fn parse_pc1600(data: &[u8], offset: usize) -> (r: Option<ParsedHeader>)
    requires
        offset < data@.len(),
    ensures
        opt_header_view(r) == parse_pc1600_spec(data@, offset as int),
        r matches Some(h) ==> h.offset + h.header_len <= data.len() && h.header_len == 16
            && h.length <= 0x100_0000,
{
    if data.len() - offset < PC1600_LEN {
        return None;
    }
    let file_type = match pc1600_file_type(data[offset + 4]) {
        Some(t) => t,
        None => {
            return None;
        },
    };
    let length = le24_at(data, offset + 5) as usize;
    let start_raw = le24_at(data, offset + 8);
    let run_raw = le24_at(data, offset + 11);
    let (start_addr, run_addr) = if file_type == FileType::Machine {
        (start_raw, run_raw)
    } else {
        (0u32, 0u32)
    };
    Some(
        ParsedHeader {
            device: Device::Pc1600,
            file_type,
            offset,
            header_len: PC1600_LEN,
            length,
            start_addr,
            run_addr,
            filename: None,
        },
    )
}


/// Bytes wanted for a transfer: the payload start plus the header's length field.
pub open spec fn expected_total_spec(d: Seq<u8>) -> Option<int> {
    match find_spec(d) {
        Some(h) => Some(h.offset + h.header_len + h.length),
        None => None,
    }
}

/// Scan a growing buffer (as bytes arrive over serial) and report the total number of
/// bytes expected for a complete transfer (header + payload), once known. `None` while
/// no recognized header has been found, or while the first magic match is still
/// incomplete. For `Variables` the wire length field is unreliable, so the total only
/// covers the header plus one byte.
pub fn expected_total_bytes(data: &[u8]) -> (r: Option<usize>)
    requires
        data@.len() <= usize::MAX - 0x100_0000,
    ensures
        match r {
            Some(n) => expected_total_spec(data@) == Some(n as int),
            None => expected_total_spec(data@) is None,
        },
{
    match find(data) {
        Some(h) => {
            let start = h.payload_start();
            Some(start + h.length)
        },
        None => None,
    }
}

/// Arguments for building a serial header. `name` supplies the CE-158 filename
/// (upper-cased, CP437, at most 16 characters, NUL-padded); unused for PC-1600.
/// `start_addr`/`run_addr` are only written when `file_type == Machine`.
pub struct BuildHeader<'a> {
    pub device: Device,
    pub file_type: FileType,
    pub name: Option<&'a str>,
    pub payload_len: usize,
    pub start_addr: u32,
    pub run_addr: u32,
}

/// A header can be built for this device and type: the PC-1600 header has no
/// `Reserve`/`Variables` type.
pub open spec fn buildable(device: Device, ft: FileType) -> bool {
    device == Device::Pc1500 || ft == FileType::Basic || ft == FileType::Machine
}

pub open spec fn ascii_upper(c: char) -> char {
    if 'a' <= c && c <= 'z' {
        ((c as u32) - 32) as char
    } else {
        c
    }
}

pub open spec fn opt_str_chars(name: Option<&str>) -> Seq<char> {
    match name {
        Some(n) => n@,
        None => Seq::empty(),
    }
}

/// The encoded CE-158 name: the first 16 characters, upper-cased, as CP437.
pub open spec fn name_bytes_spec(name: Seq<char>) -> Seq<u8> {
    let taken = if name.len() <= 16 {
        name
    } else {
        name.take(16)
    };
    encode_lossy_seq(taken.map_values(|c: char| ascii_upper(c)))
}

pub open spec fn zeros(n: nat) -> Seq<u8> {
    Seq::new(n, |i: int| 0u8)
}

/// The 16-byte CE-158 name field.
pub open spec fn name_field_bytes(name: Seq<char>) -> Seq<u8> {
    name_bytes_spec(name) + zeros((16 - name_bytes_spec(name).len()) as nat)
}

pub open spec fn be16_bytes(v: int) -> Seq<u8> {
    seq![(v / 256) as u8, (v % 256) as u8]
}

pub open spec fn le24_bytes(v: int) -> Seq<u8> {
    seq![(v % 256) as u8, ((v / 256) % 256) as u8, ((v / 65536) % 256) as u8]
}

pub open spec fn ce158_type_byte(ft: FileType) -> u8 {
    match ft {
        FileType::Basic => 0x40,
        FileType::Machine => 0x42,
        FileType::Reserve => 0x41,
        FileType::Variables => 0x48,
    }
}

/// The wire length field: "capacity - 1" (16-bit, wrapping), always 0 for Variables.
pub open spec fn ce158_length_field(ft: FileType, payload_len: int) -> int {
    if ft == FileType::Variables {
        0
    } else {
        (payload_len + 65535) % 65536
    }
}

pub open spec fn build_ce158_spec(
    ft: FileType,
    name: Seq<char>,
    payload_len: int,
    start: int,
    run: int,
) -> Seq<u8> {
    seq![0x01u8, ce158_type_byte(ft), 0x43u8, 0x4Fu8, 0x4Du8] + name_field_bytes(name)
        + be16_bytes(
        if ft == FileType::Machine {
            start % 65536
        } else {
            0
        },
    ) + be16_bytes(ce158_length_field(ft, payload_len)) + be16_bytes(
        if ft == FileType::Machine {
            run % 65536
        } else {
            0
        },
    )
}

pub open spec fn build_pc1600_spec(ft: FileType, payload_len: int, start: int, run: int) -> Seq<
    u8,
> {
    seq![0xFFu8, 0x10u8, 0x00u8, 0x00u8, if ft == FileType::Machine {
        0x10u8
    } else {
        0x21u8
    }] + le24_bytes(payload_len % 0x100_0000) + (if ft == FileType::Machine {
        le24_bytes(start % 0x100_0000) + le24_bytes(run % 0x100_0000)
    } else {
        zeros(6)
    }) + seq![0x00u8, 0x0Fu8]
}

pub open spec fn build_header_spec(spec: BuildHeader) -> Seq<u8> {
    match spec.device {
        Device::Pc1500 => build_ce158_spec(
            spec.file_type,
            opt_str_chars(spec.name),
            spec.payload_len as int,
            spec.start_addr as int,
            spec.run_addr as int,
        ),
        Device::Pc1600 => build_pc1600_spec(
            spec.file_type,
            spec.payload_len as int,
            spec.start_addr as int,
            spec.run_addr as int,
        ),
    }
}

/// Build the serial header for `device` wrapping a tokenized BASIC payload of
/// `payload_len` bytes.
pub fn build(device: Device, name: Option<&str>, payload_len: usize) -> (h: Vec<u8>)
    ensures
        h@ == build_header_spec(
            BuildHeader {
                device,
                file_type: FileType::Basic,
                name,
                payload_len,
                start_addr: 0,
                run_addr: 0,
            },
        ),
{
    build_header(
        BuildHeader {
            device,
            file_type: FileType::Basic,
            name,
            payload_len,
            start_addr: 0,
            run_addr: 0,
        },
    )
}

/// Build a serial header per `spec`. See [`BuildHeader`].
pub fn build_header(spec: BuildHeader) -> (h: Vec<u8>)
    requires
        buildable(spec.device, spec.file_type),
    ensures
        h@ == build_header_spec(spec),
{
    match spec.device {
        Device::Pc1500 => build_ce158(spec),
        Device::Pc1600 => build_pc1600(spec),
    }
}

fn push_be16(out: &mut Vec<u8>, v: u32)
    requires
        v < 65536,
    ensures
        final(out)@ == old(out)@ + be16_bytes(v as int),
{
    out.push((v / 256) as u8);
    out.push((v % 256) as u8);
    assert(final(out)@ =~= old(out)@ + be16_bytes(v as int));
}

fn push_le24(out: &mut Vec<u8>, v: u32)
    requires
        v < 0x100_0000,
    ensures
        final(out)@ == old(out)@ + le24_bytes(v as int),
{
    out.push((v % 256) as u8);
    out.push(((v / 256) % 256) as u8);
    out.push(((v / 65536) % 256) as u8);
    assert(final(out)@ =~= old(out)@ + le24_bytes(v as int));
}

/// Upper-case an ASCII letter; any other character is returned unchanged.
pub fn to_ascii_upper(c: char) -> (r: char)
    ensures
        r == ascii_upper(c),
{
    if c >= 'a' && c <= 'z' {
        let v: u32 = (c as u32) - 32;
        textbuf::char_from_ascii(v as u8)
    } else {
        c
    }
}

/// The 16-byte CE-158 name field for `name`.
fn name_field_exec(name: Option<&str>) -> (r: Vec<u8>)
    ensures
        r@ == name_field_bytes(opt_str_chars(name)),
{
    let chars: Vec<char> = match name {
        Some(n) => textbuf::chars_of(n),
        None => Vec::new(),
    };
    let n = if chars.len() <= 16 {
        chars.len()
    } else {
        16
    };
    let mut upper: Vec<char> = Vec::new();
    let mut i: usize = 0;
    while i < n
        invariant
            n <= chars@.len(),
            n <= 16,
            i <= n,
            upper@ == chars@.take(i as int).map_values(|c: char| ascii_upper(c)),
        decreases n - i,
    {
        upper.push(to_ascii_upper(chars[i]));
        i = i + 1;
        assert(upper@ =~= chars@.take(i as int).map_values(|c: char| ascii_upper(c)));
    }
    let ghost nm = opt_str_chars(name);
    assert(chars@ == nm);
    assert(chars@.take(n as int) =~= (if nm.len() <= 16 {
        nm
    } else {
        nm.take(16)
    }));
    let mut out = cp437::encode_lossy_chars(upper.as_slice());
    assert(out@ == name_bytes_spec(nm));
    let k0 = out.len();
    while out.len() < 16
        invariant
            k0 <= 16,
            k0 <= out@.len() <= 16,
            out@ == name_bytes_spec(nm) + zeros((out@.len() - k0) as nat),
        decreases 16 - out.len(),
    {
        out.push(0u8);
        assert(zeros((out@.len() - k0) as nat) =~= zeros((out@.len() - 1 - k0) as nat).push(0u8));
    }
    out
}

fn build_ce158(spec: BuildHeader) -> (h: Vec<u8>)
    requires
        spec.device == Device::Pc1500,
    ensures
        h@ == build_header_spec(spec),
{
    let mut h: Vec<u8> = Vec::new();
    h.push(0x01u8);
    h.push(
        match spec.file_type {
            FileType::Basic => 0x40u8,
            FileType::Machine => 0x42u8,
            FileType::Reserve => 0x41u8,
            FileType::Variables => 0x48u8,
        },
    );
    h.push(0x43u8);
    h.push(0x4Fu8);
    h.push(0x4Du8);
    let field = name_field_exec(spec.name);
    let mut j: usize = 0;
    let ghost h0 = h@;
    while j < field.len()
        invariant
            j <= field@.len(),
            h@ == h0 + field@.take(j as int),
        decreases field.len() - j,
    {
        h.push(field[j]);
        j = j + 1;
        assert(h@ =~= h0 + field@.take(j as int));
    }
    assert(field@.take(field@.len() as int) =~= field@);
    let machine = spec.file_type == FileType::Machine;
    push_be16(
        &mut h,
        if machine {
            spec.start_addr % 65536
        } else {
            0
        },
    );
    let dl: u32 = if spec.file_type == FileType::Variables {
        0
    } else if spec.payload_len == 0 {
        65535
    } else {
        ((spec.payload_len - 1) % 65536) as u32
    };
    assert(dl == ce158_length_field(spec.file_type, spec.payload_len as int));
    push_be16(&mut h, dl);
    push_be16(
        &mut h,
        if machine {
            spec.run_addr % 65536
        } else {
            0
        },
    );
    assert(h@ =~= build_header_spec(spec));
    h
}

fn build_pc1600(spec: BuildHeader) -> (h: Vec<u8>)
    requires
        spec.device == Device::Pc1600,
        spec.file_type == FileType::Basic || spec.file_type == FileType::Machine,
    ensures
        h@ == build_header_spec(spec),
{
    let machine = spec.file_type == FileType::Machine;
    let mut h: Vec<u8> = Vec::new();
    h.push(0xFFu8);
    h.push(0x10u8);
    h.push(0x00u8);
    h.push(0x00u8);
    h.push(
        if machine {
            0x10u8
        } else {
            0x21u8
        },
    );
    push_le24(&mut h, (spec.payload_len % 0x100_0000) as u32);
    if machine {
        push_le24(&mut h, spec.start_addr % 0x100_0000);
        push_le24(&mut h, spec.run_addr % 0x100_0000);
    } else {
        let mut k: usize = 0;
        let ghost h0 = h@;
        while k < 6
            invariant
                k <= 6,
                h@ == h0 + zeros(k as nat),
            decreases 6 - k,
        {
            h.push(0u8);
            k = k + 1;
            assert(h@ =~= h0 + zeros(k as nat));
        }
    }
    h.push(0x00u8);
    h.push(0x0Fu8);
    assert(h@ =~= build_header_spec(spec));
    h
}


/// The filename a header built with `name` carries.
pub open spec fn built_filename(name: Seq<char>) -> Option<Seq<char>> {
    let t = trim_name(decode_seq(name_bytes_spec(name)));
    if t.len() == 0 {
        None
    } else {
        Some(t)
    }
}

/// What [`find`] reports for a header built from `spec`.
pub open spec fn built_view(spec: BuildHeader) -> HeaderView {
    let machine = spec.file_type == FileType::Machine;
    match spec.device {
        Device::Pc1500 => HeaderView {
            device: Device::Pc1500,
            file_type: spec.file_type,
            offset: 0,
            header_len: 27,
            length: ce158_length_field(spec.file_type, spec.payload_len as int) + 1,
            start_addr: if machine {
                spec.start_addr as int % 65536
            } else {
                0
            },
            run_addr: if machine {
                spec.run_addr as int % 65536
            } else {
                0
            },
            filename: built_filename(opt_str_chars(spec.name)),
        },
        Device::Pc1600 => HeaderView {
            device: Device::Pc1600,
            file_type: spec.file_type,
            offset: 0,
            header_len: 16,
            length: spec.payload_len as int % 0x100_0000,
            start_addr: if machine {
                spec.start_addr as int % 0x100_0000
            } else {
                0
            },
            run_addr: if machine {
                spec.run_addr as int % 0x100_0000
            } else {
                0
            },
            filename: None,
        },
    }
}

proof fn lemma_trim_zero_padding(s: Seq<u8>, n: nat)
    ensures
        trim_name(decode_seq(s + zeros(n))) == trim_name(decode_seq(s)),
    decreases n,
{
    if n > 0 {
        let t = s + zeros(n);
        assert(decode_seq(t).last() == '\0');
        assert(decode_seq(t).drop_last() =~= decode_seq(s + zeros((n - 1) as nat)));
        lemma_trim_zero_padding(s, (n - 1) as nat);
    } else {
        assert(s + zeros(0) =~= s);
    }
}

proof fn lemma_name_bytes_len(name: Seq<char>)
    ensures
        name_bytes_spec(name).len() <= 16,
{
}

proof fn lemma_be16_roundtrip(v: int)
    requires
        0 <= v < 65536,
    ensures
        ((v / 256) as u8) as int * 256 + ((v % 256) as u8) as int == v,
{
}

proof fn lemma_le24_roundtrip(v: int)
    requires
        0 <= v < 0x100_0000,
    ensures
        ((v % 256) as u8) as int + (((v / 256) % 256) as u8) as int * 256 + (((v / 65536)
            % 256) as u8) as int * 65536 == v,
{
}

proof fn lemma_find_built_ce158(spec: BuildHeader, payload: Seq<u8>)
    requires
        spec.device == Device::Pc1500,
    ensures
        find_spec(build_header_spec(spec) + payload) == Some(built_view(spec)),
{
    let h = build_header_spec(spec);
    let d = h + payload;
    let name = opt_str_chars(spec.name);
    let nb = name_bytes_spec(name);
    lemma_name_bytes_len(name);
    let machine = spec.file_type == FileType::Machine;
    let st = if machine {
        spec.start_addr as int % 65536
    } else {
        0
    };
    let ln = ce158_length_field(spec.file_type, spec.payload_len as int);
    let rn = if machine {
        spec.run_addr as int % 65536
    } else {
        0
    };
    assert(h.len() == 27);
    assert(d[0] == 0x01 && d[2] == 0x43 && d[3] == 0x4F && d[4] == 0x4D);
    assert(ce158_magic_at(d, 0));
    assert(d[1] == ce158_type_byte(spec.file_type));
    assert(ce158_type_spec(d[1]) == Some(spec.file_type));
    assert(d.subrange(5, 0x15) =~= name_field_bytes(name));
    lemma_trim_zero_padding(nb, (16 - nb.len()) as nat);
    lemma_be16_roundtrip(st);
    lemma_be16_roundtrip(ln);
    lemma_be16_roundtrip(rn);
    assert(d[0x15] == (st / 256) as u8 && d[0x16] == (st % 256) as u8);
    assert(d[0x17] == (ln / 256) as u8 && d[0x18] == (ln % 256) as u8);
    assert(d[0x19] == (rn / 256) as u8 && d[0x1A] == (rn % 256) as u8);
    assert(be16(d, 0x15) == st);
    assert(be16(d, 0x17) == ln);
    assert(be16(d, 0x19) == rn);
}

proof fn lemma_find_built_pc1600(spec: BuildHeader, payload: Seq<u8>)
    requires
        spec.device == Device::Pc1600,
        spec.file_type == FileType::Basic || spec.file_type == FileType::Machine,
    ensures
        find_spec(build_header_spec(spec) + payload) == Some(built_view(spec)),
{
    let h = build_header_spec(spec);
    let d = h + payload;
    let machine = spec.file_type == FileType::Machine;
    let v = spec.payload_len as int % 0x100_0000;
    let a = spec.start_addr as int % 0x100_0000;
    let r = spec.run_addr as int % 0x100_0000;
    assert(h.len() == 16);
    assert(d[0] == 0xFF && d[1] == 0x10 && d[2] == 0x00 && d[3] == 0x00);
    assert(!ce158_magic_at(d, 0));
    assert(pc1600_magic_at(d, 0));
    assert(pc1600_type_spec(d[4]) == Some(spec.file_type));
    lemma_le24_roundtrip(v);
    assert(d[5] == (v % 256) as u8 && d[6] == ((v / 256) % 256) as u8 && d[7] == ((v / 65536)
        % 256) as u8);
    assert(le24(d, 5) == v);
    if machine {
        lemma_le24_roundtrip(a);
        lemma_le24_roundtrip(r);
        assert(d[8] == (a % 256) as u8 && d[9] == ((a / 256) % 256) as u8 && d[10] == ((a
            / 65536) % 256) as u8);
        assert(d[11] == (r % 256) as u8 && d[12] == ((r / 256) % 256) as u8 && d[13] == ((r
            / 65536) % 256) as u8);
        assert(le24(d, 8) == a);
        assert(le24(d, 11) == r);
    }
}

/// A header built by [`build_header`] is found again by [`find`] at offset 0, whatever
/// payload follows it, with the type, the payload length (as the wire field holds it),
/// the addresses (truncated to the field widths) and the filename it was built with.
pub proof fn lemma_find_built_header(spec: BuildHeader, payload: Seq<u8>)
    requires
        buildable(spec.device, spec.file_type),
    ensures
        find_spec(build_header_spec(spec) + payload) == Some(built_view(spec)),
{
    match spec.device {
        Device::Pc1500 => lemma_find_built_ce158(spec, payload),
        Device::Pc1600 => lemma_find_built_pc1600(spec, payload),
    }
}

/// A PC-1600 header only ever holds BASIC or machine language.
pub proof fn lemma_find_pc1600_kinds(d: Seq<u8>, i: int)
    ensures
        find_from_spec(d, i) matches Some(h) ==> (h.device == Device::Pc1600 ==> (h.file_type
            == FileType::Basic || h.file_type == FileType::Machine)),
    decreases d.len() - i,
{
    if 0 <= i < d.len() && !ce158_magic_at(d, i) && !pc1600_magic_at(d, i) {
        lemma_find_pc1600_kinds(d, i + 1);
    }
}

/// `h` with its offset moved on by `k`.
pub open spec fn shifted(h: Option<HeaderView>, k: int) -> Option<HeaderView> {
    match h {
        Some(v) => Some(HeaderView { offset: v.offset + k, ..v }),
        None => None,
    }
}

/// Scanning `lead + x` from `lead.len() + i` finds what scanning `x` from `i` finds,
/// moved on by `lead.len()`.
proof fn lemma_find_shift(lead: Seq<u8>, x: Seq<u8>, i: int)
    requires
        0 <= i,
    ensures
        find_from_spec(lead + x, lead.len() + i) == shifted(find_from_spec(x, i), lead.len() as int),
    decreases x.len() - i,
{
    let d = lead + x;
    let k = lead.len() as int;
    if i < x.len() {
        assert forall|j: int| 0 <= j < x.len() implies d[k + j] == #[trigger] x[j] by {}
        assert(ce158_magic_at(d, k + i) == ce158_magic_at(x, i));
        assert(pc1600_magic_at(d, k + i) == pc1600_magic_at(x, i));
        if ce158_magic_at(x, i) {
            if x.len() >= i + 27 {
                assert(d.subrange(k + i + 5, k + i + 0x15) =~= x.subrange(i + 5, i + 0x15));
            }
        } else if pc1600_magic_at(x, i) {
        } else {
            lemma_find_shift(lead, x, i + 1);
        }
    }
}

/// Scanning `lead + x` from `i` passes over leading bytes that cannot start a header.
proof fn lemma_find_lead(lead: Seq<u8>, x: Seq<u8>, i: int)
    requires
        0 <= i <= lead.len(),
        forall|j: int| 0 <= j < lead.len() ==> #[trigger] lead[j] != 0x01 && lead[j] != 0xFF,
    ensures
        find_from_spec(lead + x, i) == find_from_spec(lead + x, lead.len() as int),
    decreases lead.len() - i,
{
    if i < lead.len() {
        assert((lead + x)[i] == lead[i]);
        lemma_find_lead(lead, x, i + 1);
    }
}

/// A built header behind leading bytes none of which is `0x01` or `0xFF` (capture noise
/// such as zeros) is found where it stands, and reads as what was built.
pub proof fn lemma_find_built_header_after(lead: Seq<u8>, spec: BuildHeader, payload: Seq<u8>)
    requires
        buildable(spec.device, spec.file_type),
        forall|j: int| 0 <= j < lead.len() ==> #[trigger] lead[j] != 0x01 && lead[j] != 0xFF,
    ensures
        find_spec(lead + (build_header_spec(spec) + payload)) == shifted(
            Some(built_view(spec)),
            lead.len() as int,
        ),
{
    let x = build_header_spec(spec) + payload;
    lemma_find_built_header(spec, payload);
    lemma_find_lead(lead, x, 0);
    lemma_find_shift(lead, x, 0);
}

/// More bytes after a buffer do not change the header found in it.
pub proof fn lemma_find_extend(d: Seq<u8>, m: Seq<u8>, i: int)
    requires
        0 <= i,
    ensures
        find_from_spec(d, i) matches Some(h) ==> find_from_spec(d + m, i) == Some(h) && i <= h.offset
            && h.offset + 16 <= d.len(),
    decreases d.len() - i,
{
    let e = d + m;
    if i < d.len() {
        assert forall|j: int| 0 <= j < d.len() implies e[j] == #[trigger] d[j] by {}
        if ce158_magic_at(d, i) {
            assert(ce158_magic_at(e, i));
            if d.len() >= i + 27 {
                assert(e.subrange(i + 5, i + 0x15) =~= d.subrange(i + 5, i + 0x15));
            }
        } else if pc1600_magic_at(d, i) {
            assert(pc1600_magic_at(e, i));
        } else {
            lemma_find_extend(d, m, i + 1);
            if find_from_spec(d, i + 1) is Some {
                assert(!ce158_magic_at(e, i));
                assert(!pc1600_magic_at(e, i));
            }
        }
    }
}

/// Once a buffer announces its total, more bytes after it announce the same.
pub proof fn lemma_expected_stable(d: Seq<u8>, m: Seq<u8>)
    ensures
        expected_total_spec(d) is Some ==> expected_total_spec(d + m) == expected_total_spec(d),
{
    lemma_find_extend(d, m, 0);
}

/// Where a CE-158 header keeps its fields: the magic `01 <type> "COM"`, then the name
/// field, then the start address (big-endian) at `0x15`, the length field at `0x17` and
/// the run address at `0x19`, 27 bytes in all; the addresses are those of a machine
/// program, taken modulo 65536.
#[verifier::rlimit(40)]
pub proof fn lemma_ce158_layout(spec: BuildHeader)
    requires
        spec.device == Device::Pc1500,
    ensures
        ({
            let h = build_header_spec(spec);
            let machine = spec.file_type == FileType::Machine;
            &&& h.len() == 27
            &&& h[0] == 0x01 && h[2] == 0x43 && h[3] == 0x4F && h[4] == 0x4D
            &&& machine ==> h[1] == 0x42
            &&& h[0x15] as int == if machine { (spec.start_addr as int % 65536) / 256 } else { 0 }
            &&& h[0x16] as int == if machine { spec.start_addr as int % 256 } else { 0 }
            &&& h[0x19] as int == if machine { (spec.run_addr as int % 65536) / 256 } else { 0 }
            &&& h[0x1A] as int == if machine { spec.run_addr as int % 256 } else { 0 }
            &&& h.subrange(5, 0x15) == name_field_bytes(opt_str_chars(spec.name))
            &&& h[0x17] as int == if spec.file_type == FileType::Variables { 0 } else { ((spec.payload_len as int + 65535) % 65536) / 256 }
            &&& h[0x18] as int == if spec.file_type == FileType::Variables { 0 } else { (spec.payload_len as int + 65535) % 256 }
        }),
{
    let h = build_header_spec(spec);
    let name = opt_str_chars(spec.name);
    lemma_name_bytes_len(name);
    let st = if spec.file_type == FileType::Machine {
        spec.start_addr as int % 65536
    } else {
        0
    };
    let rn = if spec.file_type == FileType::Machine {
        spec.run_addr as int % 65536
    } else {
        0
    };
    lemma_be16_roundtrip(st);
    lemma_be16_roundtrip(rn);
    assert(h[0x15] == (st / 256) as u8 && h[0x16] == (st % 256) as u8);
    assert(h[0x19] == (rn / 256) as u8 && h[0x1A] == (rn % 256) as u8);
    assert(spec.start_addr as int % 65536 % 256 == spec.start_addr as int % 256);
    assert(spec.run_addr as int % 65536 % 256 == spec.run_addr as int % 256);
    let ln = ce158_length_field(spec.file_type, spec.payload_len as int);
    lemma_be16_roundtrip(ln);
    assert(h[0x17] == (ln / 256) as u8 && h[0x18] == (ln % 256) as u8);
    let x = spec.payload_len as int + 65535;
    assert(x % 65536 % 256 == x % 256) by (nonlinear_arith)
        requires x >= 0;
    assert(h.subrange(5, 0x15) =~= name_field_bytes(name));
}

/// Where a PC-1600 header keeps its fields: `FF 10 00 00`, the type byte (`0x10` for
/// machine language, `0x21` for BASIC), the payload length as 24 bits little-endian at
/// 5..8, for machine language the start address at 8..11 and the run address at 11..14
/// (little-endian, zero for BASIC), and `00 0F` at the end.
pub proof fn lemma_pc1600_layout(spec: BuildHeader)
    requires
        spec.device == Device::Pc1600,
    ensures
        ({
            let h = build_header_spec(spec);
            let machine = spec.file_type == FileType::Machine;
            let len = spec.payload_len as int;
            let a = spec.start_addr as int;
            let r = spec.run_addr as int;
            &&& h.len() == 16
            &&& h[0] == 0xFF && h[1] == 0x10 && h[2] == 0x00 && h[3] == 0x00
            &&& h[4] == if machine { 0x10u8 } else { 0x21u8 }
            &&& h[5] as int == len % 256 && h[6] as int == (len / 256) % 256 && h[7] as int == (len / 65536) % 256
            &&& h[8] as int == if machine { a % 256 } else { 0 }
            &&& h[9] as int == if machine { (a / 256) % 256 } else { 0 }
            &&& h[10] as int == if machine { (a / 65536) % 256 } else { 0 }
            &&& h[11] as int == if machine { r % 256 } else { 0 }
            &&& h[12] as int == if machine { (r / 256) % 256 } else { 0 }
            &&& h[13] as int == if machine { (r / 65536) % 256 } else { 0 }
            &&& h[14] == 0x00 && h[15] == 0x0F
        }),
{
    let h = build_header_spec(spec);
    let len = spec.payload_len as int;
    let a = spec.start_addr as int;
    let r = spec.run_addr as int;
    let v = len % 0x100_0000;
    assert(h.len() == 16);
    assert(v % 256 == len % 256 && (v / 256) % 256 == (len / 256) % 256 && (v / 65536) % 256 == (len / 65536) % 256) by (nonlinear_arith)
        requires v == len % 0x100_0000, len >= 0;
    if spec.file_type == FileType::Machine {
        let av = a % 0x100_0000;
        let rv = r % 0x100_0000;
        assert(av % 256 == a % 256 && (av / 256) % 256 == (a / 256) % 256 && (av / 65536) % 256 == (a / 65536) % 256) by (nonlinear_arith)
            requires av == a % 0x100_0000, a >= 0;
        assert(rv % 256 == r % 256 && (rv / 256) % 256 == (r / 256) % 256 && (rv / 65536) % 256 == (r / 65536) % 256) by (nonlinear_arith)
            requires rv == r % 0x100_0000, r >= 0;
    }
}

/// What a CE-158 header found at `o` says, read from fixed places: the type byte at
/// `o + 1`, for a machine program the start address from `o + 0x15, o + 0x16` and the run
/// address from `o + 0x19, o + 0x1A` (big-endian), and the payload length one more than
/// the field at `o + 0x17, o + 0x18`.
pub open spec fn ce158_reads(d: Seq<u8>, h: HeaderView) -> bool {
    let o = h.offset;
    let machine = h.file_type == FileType::Machine;
    &&& 0 <= o && o + 27 <= d.len()
    &&& d[o] == 0x01 && d[o + 2] == 0x43 && d[o + 3] == 0x4F && d[o + 4] == 0x4D
    &&& h.header_len == 27
    &&& machine == (d[o + 1] == 0x42)
    &&& h.start_addr == if machine { d[o + 0x15] * 256 + d[o + 0x16] } else { 0 }
    &&& h.run_addr == if machine { d[o + 0x19] * 256 + d[o + 0x1A] } else { 0 }
    &&& h.length == d[o + 0x17] * 256 + d[o + 0x18] + 1
}

/// What a PC-1600 header found at `o` says, read from fixed places: the type byte at
/// `o + 4`, the payload length from `o + 5 .. o + 8`, and for machine language the start
/// address from `o + 8 .. o + 11` and the run address from `o + 11 .. o + 14`, each 24
/// bits little-endian.
pub open spec fn pc1600_reads(d: Seq<u8>, h: HeaderView) -> bool {
    let o = h.offset;
    let machine = h.file_type == FileType::Machine;
    &&& 0 <= o && o + 16 <= d.len()
    &&& d[o] == 0xFF && d[o + 1] == 0x10 && d[o + 2] == 0x00 && d[o + 3] == 0x00
    &&& h.header_len == 16
    &&& machine == (d[o + 4] == 0x10)
    &&& !machine ==> d[o + 4] == 0x21
    &&& h.length == d[o + 5] + d[o + 6] * 256 + d[o + 7] * 65536
    &&& h.start_addr == if machine { d[o + 8] + d[o + 9] * 256 + d[o + 10] * 65536 } else { 0 }
    &&& h.run_addr == if machine { d[o + 11] + d[o + 12] * 256 + d[o + 13] * 65536 } else { 0 }
}

/// Every PC-1600 header `find` reports is read from the fixed places of [`pc1600_reads`].
pub proof fn lemma_find_pc1600_reads(d: Seq<u8>, i: int)
    requires
        0 <= i,
    ensures
        find_from_spec(d, i) matches Some(h) ==> (h.device == Device::Pc1600 ==> pc1600_reads(d, h)),
    decreases d.len() - i,
{
    if i < d.len() && !ce158_magic_at(d, i) && !pc1600_magic_at(d, i) {
        lemma_find_pc1600_reads(d, i + 1);
    }
}

/// Every CE-158 header `find` reports is read from the fixed places of [`ce158_reads`].
pub proof fn lemma_find_ce158_reads(d: Seq<u8>, i: int)
    requires
        0 <= i,
    ensures
        find_from_spec(d, i) matches Some(h) ==> (h.device == Device::Pc1500 ==> ce158_reads(d, h)),
    decreases d.len() - i,
{
    if i < d.len() && !ce158_magic_at(d, i) && !pc1600_magic_at(d, i) {
        lemma_find_ce158_reads(d, i + 1);
    }
}

} // verus!
