//! Calc-U-1600 CE-1600F floppy image files (`<name>.floppy.yaml`) ⇄ two 64 KB sides.
//!
//! The reader accepts the YAML subset the emulator's own reader does for this file
//! (comments, quoted or bare scalars, keys in any order, `bytes: |` block scalars) and
//! rejects unknown keys and any `format-version` other than 1; the writer emits exactly
//! what the emulator's writer emits. The filesystem inside a side is
//! [`crate::diskfs`]'s business.

pub mod hex;
pub mod yaml;
pub mod roundtrip;
pub mod reread;

use vstd::prelude::*;

use crate::bcd::{is_whitespace, trim_bounds, trim_ws};
use crate::floppy_image::hex::{parse_hex_spec, HexError, HexFault, hex_reports};
use crate::floppy_image::yaml::{
    chars_eq, entry_views, node_view, parse_yaml, yaml_reports, yaml_spec, Node, YNode, YamlError, YamlFault,
};
use crate::textbuf;

pub use crate::floppy_image::hex::{format_addressed_hex, parse_addressed_hex};

verus! {

/// Bytes per side (16 tracks × 8 sectors × 512 bytes).
pub const SIDE_SIZE: usize = 0x10000;

pub const FORMAT_TAG: &'static str = "ce1600f-floppy";

pub const FORMAT_VERSION: i64 = 1;

/// File-name suffix the emulator scans for.
pub const FILE_SUFFIX: &'static str = ".floppy.yaml";

/// One side of the diskette; each is its own volume (the drive is single-sided, the
/// disk is flipped by hand).
#[derive(Clone, Copy, Debug, PartialEq, Eq, Structural)]
pub enum Side {
    A,
    B,
}

impl Side {
    pub open spec fn index_spec(self) -> nat {
        match self {
            Side::A => 0,
            Side::B => 1,
        }
    }

    pub fn index(self) -> (i: usize)
        ensures
            i == self.index_spec(),
    {
        match self {
            Side::A => 0,
            Side::B => 1,
        }
    }

    /// `A`/`a` or `B`/`b`.
    pub fn from_str_ci(s: &str) -> (r: Option<Side>)
        ensures
            r == (if s@ == seq!['A'] || s@ == seq!['a'] {
                Some(Side::A)
            } else if s@ == seq!['B'] || s@ == seq!['b'] {
                Some(Side::B)
            } else {
                None
            }),
    {
        let cs = textbuf::chars_of(s);
        if cs.len() != 1 {
            return None;
        }
        let c = cs[0];
        proof {
            assert(s@ == seq![c]) by {
                assert(cs@ =~= seq![c]);
            }
        }
        if c == 'A' || c == 'a' {
            Some(Side::A)
        } else if c == 'B' || c == 'b' {
            Some(Side::B)
        } else {
            proof {
                if s@ == seq!['A'] || s@ == seq!['a'] || s@ == seq!['B'] || s@ == seq!['b'] {
                    assert(s@[0] == c);
                }
            }
            None
        }
    }

    /// `A` or `B`.
    pub fn as_str(self) -> (s: &'static str)
        ensures
            s@ == side_name(self),
    {
        proof {
            reveal_strlit("A");
            reveal_strlit("B");
        }
        match self {
            Side::A => "A",
            Side::B => "B",
        }
    }

    /// The side's key in the file, `a` or `b`.
    fn key(self) -> (s: &'static str)
        ensures
            s@ == side_key(self),
    {
        proof {
            reveal_strlit("a");
            reveal_strlit("b");
        }
        match self {
            Side::A => "a",
            Side::B => "b",
        }
    }
}

pub open spec fn side_name(s: Side) -> Seq<char> {
    match s {
        Side::A => seq!['A'],
        Side::B => seq!['B'],
    }
}

pub open spec fn side_key(s: Side) -> Seq<char> {
    match s {
        Side::A => seq!['a'],
        Side::B => seq!['b'],
    }
}

/// A diskette image: its name, the `saved:` timestamp as read, and its two sides.
#[derive(Clone, Debug, PartialEq, Eq)]
pub struct FloppyImage {
    pub disk_name: String,
    pub saved: Option<String>,
    /// Side A and side B, [`SIDE_SIZE`] bytes each.
    pub sides: [Vec<u8>; 2],
}

pub struct ImageView {
    pub disk_name: Seq<char>,
    pub saved: Option<Seq<char>>,
    pub side_a: Seq<u8>,
    pub side_b: Seq<u8>,
}

impl View for FloppyImage {
    type V = ImageView;

    open spec fn view(&self) -> ImageView {
        ImageView {
            disk_name: self.disk_name@,
            saved: match &self.saved {
                Some(s) => Some(s@),
                None => None,
            },
            side_a: self.sides@[0]@,
            side_b: self.sides@[1]@,
        }
    }
}

impl ImageView {
    pub open spec fn side(self, s: Side) -> Seq<u8> {
        match s {
            Side::A => self.side_a,
            Side::B => self.side_b,
        }
    }

    /// The image with side `s` replaced by `b`.
    pub open spec fn with_side(self, s: Side, b: Seq<u8>) -> ImageView {
        match s {
            Side::A => ImageView { disk_name: self.disk_name, saved: self.saved, side_a: b, side_b: self.side_b },
            Side::B => ImageView { disk_name: self.disk_name, saved: self.saved, side_a: self.side_a, side_b: b },
        }
    }
}

impl FloppyImage {
    pub fn side(&self, side: Side) -> (b: &[u8])
        ensures
            b@ == self@.side(side),
    {
        self.sides[side.index()].as_slice()
    }

    pub fn side_mut(&mut self, side: Side) -> (b: &mut Vec<u8>)
        ensures
            *b == old(self).sides@[side.index_spec() as int],
            final(self).disk_name == old(self).disk_name,
            final(self).saved == old(self).saved,
            final(self).sides@ == old(self).sides@.update(side.index_spec() as int, *final(b)),
    {
        match side {
            Side::A => &mut self.sides[0],
            Side::B => &mut self.sides[1],
        }
    }
}

// ── integers ─────────────────────────────────────────────────────────────

/// Value of `c` as a digit in `radix` (up to 36).
pub open spec fn radix_digit(c: char, radix: nat) -> Option<nat> {
    let v: int = if '0' <= c && c <= '9' {
        c as int - '0' as int
    } else if 'a' <= c && c <= 'z' {
        c as int - 'a' as int + 10
    } else if 'A' <= c && c <= 'Z' {
        c as int - 'A' as int + 10
    } else {
        99
    };
    if v < radix {
        Some(v as nat)
    } else {
        None
    }
}

pub open spec fn radix_digits(s: Seq<char>, radix: nat) -> bool {
    forall|i: int| 0 <= i < s.len() ==> radix_digit(#[trigger] s[i], radix) is Some
}

pub open spec fn radix_value(s: Seq<char>, radix: nat) -> nat
    decreases s.len(),
{
    if s.len() == 0 {
        0
    } else {
        radix_value(s.drop_last(), radix) * radix + radix_digit(s.last(), radix)->0
    }
}

/// `i64::from_str_radix`: an optional sign, then at least one digit, the value in range.
pub open spec fn parse_i64_radix(s: Seq<char>, radix: nat) -> Option<int> {
    let neg = s.len() > 0 && s[0] == '-';
    let d = if s.len() > 0 && (s[0] == '-' || s[0] == '+') {
        s.skip(1)
    } else {
        s
    };
    if d.len() == 0 || !radix_digits(d, radix) {
        None
    } else {
        let v: int = if neg {
            -radix_value(d, radix)
        } else {
            radix_value(d, radix) as int
        };
        if i64::MIN <= v <= i64::MAX {
            Some(v)
        } else {
            None
        }
    }
}

/// Negation as `i64` wraps it: `i64::MIN` stays itself.
pub open spec fn neg_i64(v: int) -> int {
    if v == i64::MIN {
        v
    } else {
        -v
    }
}

/// An integer scalar: decimal, or `0x…` hexadecimal, after an optional `-`.
pub open spec fn parse_int_spec(s: Seq<char>) -> Option<int> {
    let t = trim_ws(s);
    let neg = t.len() > 0 && t[0] == '-';
    let digits = if neg {
        t.skip(1)
    } else {
        t
    };
    let hex = digits.len() >= 2 && digits[0] == '0' && (digits[1] == 'x' || digits[1] == 'X');
    let v = if hex {
        parse_i64_radix(digits.skip(2), 16)
    } else {
        parse_i64_radix(digits, 10)
    };
    match v {
        None => None,
        Some(x) => Some(
            if neg {
                neg_i64(x)
            } else {
                x
            },
        ),
    }
}

fn radix_digit_of(c: char, radix: u32) -> (r: Option<u32>)
    requires
        2 <= radix <= 36,
    ensures
        match r {
            Some(v) => radix_digit(c, radix as nat) == Some(v as nat) && v < radix,
            None => radix_digit(c, radix as nat) is None,
        },
{
    let v: u32 = if '0' <= c && c <= '9' {
        (c as u32) - ('0' as u32)
    } else if 'a' <= c && c <= 'z' {
        (c as u32) - ('a' as u32) + 10
    } else if 'A' <= c && c <= 'Z' {
        (c as u32) - ('A' as u32) + 10
    } else {
        99
    };
    if v < radix {
        Some(v)
    } else {
        None
    }
}

/// `s[from..to]` read as `i64::from_str_radix` does.
fn parse_i64_radix_of(s: &Vec<char>, from: usize, to: usize, radix: u32) -> (r: Option<i64>)
    requires
        from <= to <= s@.len(),
        2 <= radix <= 36,
    ensures
        match r {
            Some(v) => parse_i64_radix(s@.subrange(from as int, to as int), radix as nat) == Some(v as int),
            None => parse_i64_radix(s@.subrange(from as int, to as int), radix as nat) is None,
        },
{
    let ghost t = s@.subrange(from as int, to as int);
    let neg = to > from && s[from] == '-';
    let start = if to > from && (s[from] == '-' || s[from] == '+') {
        from + 1
    } else {
        from
    };
    let ghost d = s@.subrange(start as int, to as int);
    assert(start == from + 1 ==> d =~= t.skip(1));
    assert(start == from ==> d =~= t);
    if start == to {
        return None;
    }
    // magnitude accumulated as a non-positive number when negative, so i64::MIN fits
    let mut v: i64 = 0;
    let mut k = start;
    while k < to
        invariant
            start <= k <= to <= s@.len(),
            start < to,
            2 <= radix <= 36,
            t == s@.subrange(from as int, to as int),
            d == s@.subrange(start as int, to as int),
            neg == (t.len() > 0 && t[0] == '-'),
            d == (if t.len() > 0 && (t[0] == '-' || t[0] == '+') {
                t.skip(1)
            } else {
                t
            }),
            radix_digits(s@.subrange(start as int, k as int), radix as nat),
            v == (if neg {
                -radix_value(s@.subrange(start as int, k as int), radix as nat)
            } else {
                radix_value(s@.subrange(start as int, k as int), radix as nat) as int
            }),
        decreases to - k,
    {
        let dv = match radix_digit_of(s[k], radix) {
            Some(x) => x as i64,
            None => {
                assert(d[(k - start) as int] == s@[k as int]);
                assert(!radix_digits(d, radix as nat));
                return None;
            },
        };
        let ghost prefix = s@.subrange(start as int, k + 1);
        assert(prefix.drop_last() =~= s@.subrange(start as int, k as int));
        let vi = v as i128;
        let ri = radix as i128;
        let di = dv as i128;
        assert(-0x8000_0000_0000_0000 * 36 <= vi * ri <= 0x7fff_ffff_ffff_ffff * 36) by (nonlinear_arith)
            requires
                -0x8000_0000_0000_0000 <= vi <= 0x7fff_ffff_ffff_ffff,
                2 <= ri <= 36,
        ;
        let ghost rv = radix_value(s@.subrange(start as int, k as int), radix as nat);
        let w: i128 = if neg {
            vi * ri - di
        } else {
            vi * ri + di
        };
        proof {
            assert(radix_value(prefix, radix as nat) == rv * radix + dv);
            if neg {
                assert(vi * ri == -(rv * radix)) by (nonlinear_arith)
                    requires
                        vi == -rv,
                        ri == radix,
                ;
                assert(w == -radix_value(prefix, radix as nat));
            } else {
                assert(vi * ri == rv * radix) by (nonlinear_arith)
                    requires
                        vi == rv,
                        ri == radix,
                ;
                assert(w == radix_value(prefix, radix as nat));
            }
        }
        if w < (i64::MIN as i128) || w > (i64::MAX as i128) {
            proof {
                lemma_radix_value_grows(d, (k + 1 - start) as int, radix as nat);
                assert(d.take((k + 1 - start) as int) =~= prefix);
            }
            return None;
        }
        v = w as i64;
        k = k + 1;
        assert(radix_digits(s@.subrange(start as int, k as int), radix as nat)) by {
            assert forall|i: int| 0 <= i < k - start implies radix_digit(
                #[trigger] s@.subrange(start as int, k as int)[i],
                radix as nat,
            ) is Some by {
                if i < k - 1 - start {
                    assert(s@.subrange(start as int, k as int)[i] == s@.subrange(start as int, k - 1)[i]);
                }
            }
        }
    }
    assert(s@.subrange(start as int, k as int) =~= d);
    Some(v)
}

proof fn lemma_radix_value_grows(d: Seq<char>, n: int, radix: nat)
    requires
        0 <= n <= d.len(),
        radix >= 2,
    ensures
        radix_digits(d, radix) ==> radix_value(d, radix) >= radix_value(d.take(n), radix),
    decreases d.len() - n,
{
    if n < d.len() {
        lemma_radix_value_grows(d, n + 1, radix);
        assert(d.take(n + 1).drop_last() =~= d.take(n));
        if radix_digits(d, radix) {
            assert(radix_digit(d.take(n + 1).last(), radix) is Some) by {
                assert(d.take(n + 1).last() == d[n]);
            }
            assert(radix_value(d.take(n + 1), radix) >= radix_value(d.take(n), radix)) by (nonlinear_arith)
                requires
                    radix_value(d.take(n + 1), radix) == radix_value(d.take(n), radix) * radix + radix_digit(
                        d.take(n + 1).last(),
                        radix,
                    )->0,
                    radix >= 2,
            ;
        }
    } else {
        assert(d.take(n) =~= d);
    }
}

/// An integer scalar: decimal, or `0x…` hexadecimal, after an optional `-`.
fn parse_int(s: &Vec<char>) -> (r: Option<i64>)
    ensures
        match r {
            Some(v) => parse_int_spec(s@) == Some(v as int),
            None => parse_int_spec(s@) is None,
        },
{
    let (a, b) = trim_bounds(s);
    let ghost t = trim_ws(s@);
    let neg = a < b && s[a] == '-';
    let d = if neg {
        a + 1
    } else {
        a
    };
    let ghost digits = s@.subrange(d as int, b as int);
    assert(neg ==> t.skip(1) =~= digits);
    assert(!neg ==> t =~= digits);
    let hex = b - d >= 2 && s[d] == '0' && (s[d + 1] == 'x' || s[d + 1] == 'X');
    let v = if hex {
        assert(digits.skip(2) =~= s@.subrange(d + 2, b as int));
        parse_i64_radix_of(s, d + 2, b, 16)
    } else {
        parse_i64_radix_of(s, d, b, 10)
    };
    match v {
        None => None,
        Some(x) => Some(
            if neg {
                if x == i64::MIN {
                    x
                } else {
                    -x
                }
            } else {
                x
            },
        ),
    }
}


// ── reader ───────────────────────────────────────────────────────────────

/// Why a file does not read as a floppy image.
pub enum FloppyFault {
    Yaml(YamlFault),
    UnknownKey(Seq<char>),
    NotScalar(Seq<char>),
    NotMapping(Seq<char>),
    NotFloppy,
    MissingVersion,
    VersionNotInt(Seq<char>),
    UnsupportedVersion(int),
    MissingDiskName,
    EmptyDiskName,
    MissingSides,
    SideMissing(Side),
    SideEncoding(Side),
    SideMissingBytes(Side),
    SideHex(Side, HexFault),
}

/// The first key of `es` from `i` on that `allowed` does not hold.
pub open spec fn unknown_key(es: Seq<(Seq<char>, YNode)>, allowed: Seq<Seq<char>>, i: int) -> Option<Seq<char>>
    decreases es.len() - i,
{
    if i < 0 || i >= es.len() {
        None
    } else if !allowed.contains(es[i].0) {
        Some(es[i].0)
    } else {
        unknown_key(es, allowed, i + 1)
    }
}

/// The node of the first entry of `es` from `i` on whose key is `key`.
pub open spec fn lookup(es: Seq<(Seq<char>, YNode)>, key: Seq<char>, i: int) -> Option<YNode>
    decreases es.len() - i,
{
    if i < 0 || i >= es.len() {
        None
    } else if es[i].0 == key {
        Some(es[i].1)
    } else {
        lookup(es, key, i + 1)
    }
}

/// The scalar under `key`, if any; a mapping there is a fault.
pub open spec fn scalar_at(es: Seq<(Seq<char>, YNode)>, key: Seq<char>) -> Result<Option<Seq<char>>, FloppyFault> {
    match lookup(es, key, 0) {
        None => Ok(None),
        Some(YNode::Scalar(s)) => Ok(Some(s)),
        Some(YNode::Mapping(_)) => Err(FloppyFault::NotScalar(key)),
    }
}

/// The mapping under `key`, if any; a scalar there is a fault.
pub open spec fn mapping_at(es: Seq<(Seq<char>, YNode)>, key: Seq<char>) -> Result<
    Option<Seq<(Seq<char>, YNode)>>,
    FloppyFault,
> {
    match lookup(es, key, 0) {
        None => Ok(None),
        Some(YNode::Mapping(m)) => Ok(Some(m)),
        Some(YNode::Scalar(_)) => Err(FloppyFault::NotMapping(key)),
    }
}

pub open spec fn top_keys() -> Seq<Seq<char>> {
    seq!["format"@, "format-version"@, "disk-name"@, "saved"@, "sides"@]
}

pub open spec fn side_keys() -> Seq<Seq<char>> {
    seq!["encoding"@, "bytes"@]
}

/// The bytes of one side, read from the `sides` mapping.
pub open spec fn read_side(sides: Seq<(Seq<char>, YNode)>, s: Side) -> Result<Seq<u8>, FloppyFault> {
    match mapping_at(sides, side_key(s)) {
        Err(f) => Err(f),
        Ok(None) => Err(FloppyFault::SideMissing(s)),
        Ok(Some(node)) => match unknown_key(node, side_keys(), 0) {
            Some(k) => Err(FloppyFault::UnknownKey(k)),
            None => match scalar_at(node, "encoding"@) {
                Err(f) => Err(f),
                Ok(enc) => if enc != Some("addressed-hex"@) {
                    Err(FloppyFault::SideEncoding(s))
                } else {
                    match scalar_at(node, "bytes"@) {
                        Err(f) => Err(f),
                        Ok(None) => Err(FloppyFault::SideMissingBytes(s)),
                        Ok(Some(text)) => match parse_hex_spec(vstd::utf8::encode_utf8(text), SIDE_SIZE as nat) {
                            Err(f) => Err(FloppyFault::SideHex(s, f)),
                            Ok(b) => Ok(b),
                        },
                    }
                },
            },
        },
    }
}

/// Both sides, side A first.
pub open spec fn read_sides(sides: Seq<(Seq<char>, YNode)>) -> Result<(Seq<u8>, Seq<u8>), FloppyFault> {
    match unknown_key(sides, seq!["a"@, "b"@], 0) {
        Some(k) => Err(FloppyFault::UnknownKey(k)),
        None => match read_side(sides, Side::A) {
            Err(f) => Err(f),
            Ok(a) => match read_side(sides, Side::B) {
                Err(f) => Err(f),
                Ok(b) => Ok((a, b)),
            },
        },
    }
}

/// What the top-level entries say, once the format has been checked.
pub open spec fn read_image(root: Seq<(Seq<char>, YNode)>) -> Result<ImageView, FloppyFault> {
    match scalar_at(root, "format-version"@) {
        Err(f) => Err(f),
        Ok(None) => Err(FloppyFault::MissingVersion),
        Ok(Some(vt)) => match parse_int_spec(vt) {
            None => Err(FloppyFault::VersionNotInt(vt)),
            Some(v) => if v != FORMAT_VERSION {
                Err(FloppyFault::UnsupportedVersion(v))
            } else {
                match scalar_at(root, "disk-name"@) {
                    Err(f) => Err(f),
                    Ok(None) => Err(FloppyFault::MissingDiskName),
                    Ok(Some(name)) => if name.len() == 0 {
                        Err(FloppyFault::EmptyDiskName)
                    } else {
                        match scalar_at(root, "saved"@) {
                            Err(f) => Err(f),
                            Ok(saved) => match mapping_at(root, "sides"@) {
                                Err(f) => Err(f),
                                Ok(None) => Err(FloppyFault::MissingSides),
                                Ok(Some(sides)) => match read_sides(sides) {
                                    Err(f) => Err(f),
                                    Ok((a, b)) => Ok(ImageView { disk_name: name, saved, side_a: a, side_b: b }),
                                },
                            },
                        }
                    },
                }
            },
        },
    }
}

/// Reading a `.floppy.yaml` file.
pub open spec fn parse_spec(t: Seq<char>) -> Result<ImageView, FloppyFault> {
    match yaml_spec(t) {
        Err(f) => Err(FloppyFault::Yaml(f)),
        Ok(YNode::Scalar(_)) => Err(FloppyFault::NotFloppy),
        Ok(YNode::Mapping(root)) => match unknown_key(root, top_keys(), 0) {
            Some(k) => Err(FloppyFault::UnknownKey(k)),
            None => match scalar_at(root, "format"@) {
                Err(f) => Err(f),
                Ok(fmt) => if fmt != Some("ce1600f-floppy"@) {
                    Err(FloppyFault::NotFloppy)
                } else {
                    read_image(root)
                },
            },
        },
    }
}

/// Why a file does not read as a floppy image.
#[derive(Clone, Debug, PartialEq, Eq)]
pub enum FloppyError {
    Yaml(YamlError),
    UnknownKey(String),
    NotScalar(String),
    NotMapping(String),
    NotFloppy,
    MissingVersion,
    VersionNotInt(String),
    UnsupportedVersion(i64),
    MissingDiskName,
    EmptyDiskName,
    MissingSides,
    SideMissing(Side),
    SideEncoding(Side),
    SideMissingBytes(Side),
    SideHex(Side, HexError),
    /// The disk name cannot be written: empty, or holding `"` or a line break.
    UnwritableName(String),
    /// A side does not hold [`SIDE_SIZE`] bytes.
    SideSize(Side, usize),
}

impl FloppyError {
    /// The side a fault of one side names, as the start of its message.
    pub open spec fn side_prefix(self) -> Seq<char> {
        match self {
            FloppyError::SideMissing(d) => "side '"@ + side_key(d) + "': "@,
            FloppyError::SideEncoding(d) => "side '"@ + side_key(d) + "': "@,
            FloppyError::SideMissingBytes(d) => "side '"@ + side_key(d) + "': "@,
            FloppyError::SideHex(d, _) => "side '"@ + side_key(d) + "': "@,
            _ => Seq::empty(),
        }
    }

    /// The error as a line of text.
    pub open spec fn message_text(self) -> Seq<char> {
        self.side_prefix() + match self {
            FloppyError::Yaml(e) => e.message_text(),
            FloppyError::UnknownKey(k) => "unknown key '"@ + k@ + "'"@,
            FloppyError::NotScalar(k) => "'"@ + k@ + "' must be a scalar"@,
            FloppyError::NotMapping(k) => "'"@ + k@ + "' must be a mapping"@,
            FloppyError::NotFloppy => "not a floppy-disk file (expected 'format: ce1600f-floppy')"@,
            FloppyError::MissingVersion => "missing 'format-version'"@,
            FloppyError::VersionNotInt(v) => "'format-version' is not an integer: \""@ + v@ + "\""@,
            FloppyError::UnsupportedVersion(v) => "unsupported floppy format-version "@ + (if v < 0 {
                seq!['-'] + textbuf::decimal((-v) as nat)
            } else {
                textbuf::decimal(v as nat)
            }) + " (sde reads 1)"@,
            FloppyError::MissingDiskName => "missing 'disk-name'"@,
            FloppyError::EmptyDiskName => "empty 'disk-name'"@,
            FloppyError::MissingSides => "missing 'sides' mapping"@,
            FloppyError::SideMissing(_) => "missing"@,
            FloppyError::SideEncoding(_) => "expected 'encoding: addressed-hex'"@,
            FloppyError::SideMissingBytes(_) => "missing 'bytes'"@,
            FloppyError::SideHex(_, e) => e.message_text(),
            FloppyError::UnwritableName(n) => "disk name \""@ + n@
                + "\" cannot be written (empty, or contains '\"' or a newline)"@,
            FloppyError::SideSize(d, n) => "side "@ + side_name(d) + " is "@ + textbuf::decimal(n as nat)
                + " bytes, expected 65536"@,
        }
    }

    pub fn message(&self) -> (s: String)
        ensures
            s@ == self.message_text(),
    {
        let mut s = String::new();
        match self {
            FloppyError::SideMissing(d) | FloppyError::SideEncoding(d) | FloppyError::SideMissingBytes(d)
            | FloppyError::SideHex(d, _) => {
                textbuf::push_str(&mut s, "side '");
                textbuf::push_str(&mut s, d.key());
                textbuf::push_str(&mut s, "': ");
            },
            _ => {},
        }
        match self {
            FloppyError::Yaml(e) => {
                let m = e.message();
                textbuf::push_str(&mut s, m.as_str());
            },
            FloppyError::UnknownKey(k) => {
                textbuf::push_str(&mut s, "unknown key '");
                textbuf::push_str(&mut s, k.as_str());
                textbuf::push_str(&mut s, "'");
            },
            FloppyError::NotScalar(k) => {
                textbuf::push_str(&mut s, "'");
                textbuf::push_str(&mut s, k.as_str());
                textbuf::push_str(&mut s, "' must be a scalar");
            },
            FloppyError::NotMapping(k) => {
                textbuf::push_str(&mut s, "'");
                textbuf::push_str(&mut s, k.as_str());
                textbuf::push_str(&mut s, "' must be a mapping");
            },
            FloppyError::NotFloppy => textbuf::push_str(
                &mut s,
                "not a floppy-disk file (expected 'format: ce1600f-floppy')",
            ),
            FloppyError::MissingVersion => textbuf::push_str(&mut s, "missing 'format-version'"),
            FloppyError::VersionNotInt(v) => {
                textbuf::push_str(&mut s, "'format-version' is not an integer: \"");
                textbuf::push_str(&mut s, v.as_str());
                textbuf::push_str(&mut s, "\"");
            },
            FloppyError::UnsupportedVersion(v) => {
                textbuf::push_str(&mut s, "unsupported floppy format-version ");
                if *v < 0 {
                    textbuf::push_char(&mut s, '-');
                    let m: u64 = if *v == i64::MIN {
                        0x8000_0000_0000_0000
                    } else {
                        (-*v) as u64
                    };
                    textbuf::push_decimal(&mut s, m);
                } else {
                    textbuf::push_decimal(&mut s, *v as u64);
                }
                textbuf::push_str(&mut s, " (sde reads 1)");
            },
            FloppyError::MissingDiskName => textbuf::push_str(&mut s, "missing 'disk-name'"),
            FloppyError::EmptyDiskName => textbuf::push_str(&mut s, "empty 'disk-name'"),
            FloppyError::MissingSides => textbuf::push_str(&mut s, "missing 'sides' mapping"),
            FloppyError::SideMissing(_) => textbuf::push_str(&mut s, "missing"),
            FloppyError::SideEncoding(_) => textbuf::push_str(&mut s, "expected 'encoding: addressed-hex'"),
            FloppyError::SideMissingBytes(_) => textbuf::push_str(&mut s, "missing 'bytes'"),
            FloppyError::SideHex(_, e) => {
                let m = e.message();
                textbuf::push_str(&mut s, m.as_str());
            },
            FloppyError::UnwritableName(n) => {
                textbuf::push_str(&mut s, "disk name \"");
                textbuf::push_str(&mut s, n.as_str());
                textbuf::push_str(&mut s, "\" cannot be written (empty, or contains '\"' or a newline)");
            },
            FloppyError::SideSize(d, n) => {
                textbuf::push_str(&mut s, "side ");
                textbuf::push_str(&mut s, d.as_str());
                textbuf::push_str(&mut s, " is ");
                textbuf::push_decimal(&mut s, *n as u64);
                textbuf::push_str(&mut s, " bytes, expected 65536");
            },
        }
        s
    }
}

pub open spec fn floppy_reports(e: FloppyError, f: FloppyFault) -> bool {
    match (e, f) {
        (FloppyError::Yaml(a), FloppyFault::Yaml(b)) => yaml_reports(a, b),
        (FloppyError::UnknownKey(a), FloppyFault::UnknownKey(b)) => a@ == b,
        (FloppyError::NotScalar(a), FloppyFault::NotScalar(b)) => a@ == b,
        (FloppyError::NotMapping(a), FloppyFault::NotMapping(b)) => a@ == b,
        (FloppyError::NotFloppy, FloppyFault::NotFloppy) => true,
        (FloppyError::MissingVersion, FloppyFault::MissingVersion) => true,
        (FloppyError::VersionNotInt(a), FloppyFault::VersionNotInt(b)) => a@ == b,
        (FloppyError::UnsupportedVersion(a), FloppyFault::UnsupportedVersion(b)) => a == b,
        (FloppyError::MissingDiskName, FloppyFault::MissingDiskName) => true,
        (FloppyError::EmptyDiskName, FloppyFault::EmptyDiskName) => true,
        (FloppyError::MissingSides, FloppyFault::MissingSides) => true,
        (FloppyError::SideMissing(a), FloppyFault::SideMissing(b)) => a == b,
        (FloppyError::SideEncoding(a), FloppyFault::SideEncoding(b)) => a == b,
        (FloppyError::SideMissingBytes(a), FloppyFault::SideMissingBytes(b)) => a == b,
        (FloppyError::SideHex(a, x), FloppyFault::SideHex(b, y)) => a == b && hex_reports(x, y),
        _ => false,
    }
}

/// Entries as read, and their view.
pub open spec fn ev(es: &Vec<(Vec<char>, Node)>) -> Seq<(Seq<char>, YNode)> {
    entry_views(es@)
}

/// `k` spells `s`.
fn key_is(k: &Vec<char>, s: &str) -> (r: bool)
    ensures
        r == (k@ == s@),
{
    let cs = textbuf::chars_of(s);
    chars_eq(k, &cs)
}

/// Index of the first entry whose key is `key`.
fn find_entry(es: &Vec<(Vec<char>, Node)>, key: &str) -> (r: Option<usize>)
    ensures
        match r {
            Some(i) => i < es@.len() && lookup(ev(es), key@, 0) == Some(ev(es)[i as int].1),
            None => lookup(ev(es), key@, 0) is None,
        },
{
    let ghost vs = ev(es);
    let mut i: usize = 0;
    while i < es.len()
        invariant
            i <= es@.len() == vs.len(),
            vs == ev(es),
            lookup(vs, key@, 0) == lookup(vs, key@, i as int),
        decreases es@.len() - i,
    {
        assert(vs[i as int].0 == es@[i as int].0@);
        if key_is(&es[i].0, key) {
            return Some(i);
        }
        i = i + 1;
    }
    None
}

/// The first key of `es` that is none of `allowed`.
fn first_unknown(es: &Vec<(Vec<char>, Node)>, allowed: &Vec<Vec<char>>) -> (r: Option<usize>)
    ensures
        match r {
            Some(i) => i < es@.len() && unknown_key(ev(es), allowed@.map_values(|a: Vec<char>| a@), 0) == Some(
                es@[i as int].0@,
            ),
            None => unknown_key(ev(es), allowed@.map_values(|a: Vec<char>| a@), 0) is None,
        },
{
    let ghost vs = ev(es);
    let ghost al = allowed@.map_values(|a: Vec<char>| a@);
    let mut i: usize = 0;
    while i < es.len()
        invariant
            i <= es@.len() == vs.len(),
            vs == ev(es),
            al == allowed@.map_values(|a: Vec<char>| a@),
            unknown_key(vs, al, 0) == unknown_key(vs, al, i as int),
        decreases es@.len() - i,
    {
        assert(vs[i as int].0 == es@[i as int].0@);
        let mut j: usize = 0;
        let mut found = false;
        while j < allowed.len() && !found
            invariant
                i < es@.len(),
                j <= allowed@.len() == al.len(),
                al == allowed@.map_values(|a: Vec<char>| a@),
                found ==> al.contains(es@[i as int].0@),
                !found ==> forall|m: int| 0 <= m < j ==> al[m] != es@[i as int].0@,
            decreases allowed@.len() - j + (if found {
                0int
            } else {
                1int
            }),
        {
            if chars_eq(&es[i].0, &allowed[j]) {
                assert(al[j as int] == allowed@[j as int]@);
                found = true;
            } else {
                j = j + 1;
            }
        }
        if !found {
            assert(!al.contains(es@[i as int].0@));
            return Some(i);
        }
        i = i + 1;
    }
    None
}

/// The vectors of characters of `keys`.
fn key_list(keys: &[&str]) -> (r: Vec<Vec<char>>)
    ensures
        r@.map_values(|a: Vec<char>| a@) == keys@.map_values(|k: &str| k@),
{
    let mut r: Vec<Vec<char>> = Vec::new();
    let mut i: usize = 0;
    while i < keys.len()
        invariant
            i <= keys@.len(),
            r@.len() == i,
            r@.map_values(|a: Vec<char>| a@) == keys@.take(i as int).map_values(|k: &str| k@),
        decreases keys@.len() - i,
    {
        let cs = textbuf::chars_of(keys[i]);
        let ghost before = r@;
        r.push(cs);
        assert forall|m: int| 0 <= m <= i implies r@[m]@ == keys@[m]@ by {
            if m < i {
                assert(r@[m] == before[m]);
                assert(before.map_values(|a: Vec<char>| a@)[m] == keys@.take(i as int).map_values(|k: &str| k@)[m]);
            }
        }
        assert(r@.map_values(|a: Vec<char>| a@) =~= keys@.take(i + 1).map_values(|k: &str| k@));
        i = i + 1;
    }
    assert(keys@.take(i as int) =~= keys@);
    r
}


proof fn lemma_mapping_view(m: Vec<(Vec<char>, Node)>)
    ensures
        node_view(Node::Mapping(m)) == YNode::Mapping(entry_views(m@)),
{
    let n = Node::Mapping(m);
    assert(entry_views(m@) =~= match node_view(n) {
        YNode::Mapping(es) => es,
        _ => Seq::empty(),
    });
}

/// The scalar under `key`, if any.
fn scalar_of(es: &Vec<(Vec<char>, Node)>, key: &str) -> (r: Result<Option<Vec<char>>, FloppyError>)
    ensures
        match r {
            Ok(Some(v)) => scalar_at(ev(es), key@) == Ok::<Option<Seq<char>>, FloppyFault>(Some(v@)),
            Ok(None) => scalar_at(ev(es), key@) == Ok::<Option<Seq<char>>, FloppyFault>(None),
            Err(e) => scalar_at(ev(es), key@) matches Err(f) && floppy_reports(e, f),
        },
{
    match find_entry(es, key) {
        None => Ok(None),
        Some(i) => {
            assert(ev(es)[i as int].1 == node_view(es@[i as int].1));
            match &es[i].1 {
                Node::Scalar(v) => {
                    assert(node_view(es@[i as int].1) == YNode::Scalar(v@));
                    let c = crate::detect::sub_chars(v, 0, v.len());
                    assert(c@ =~= v@);
                    Ok(Some(c))
                },
                Node::Mapping(m) => {
                    proof {
                        lemma_mapping_view(*m);
                    }
                    Err(FloppyError::NotScalar(key.to_owned()))
                },
            }
        },
    }
}

/// The mapping under `key`, if any.
fn mapping_of<'a>(es: &'a Vec<(Vec<char>, Node)>, key: &str) -> (r: Result<
    Option<&'a Vec<(Vec<char>, Node)>>,
    FloppyError,
>)
    ensures
        match r {
            Ok(Some(m)) => mapping_at(ev(es), key@) == Ok::<Option<Seq<(Seq<char>, YNode)>>, FloppyFault>(
                Some(ev(m)),
            ),
            Ok(None) => mapping_at(ev(es), key@) == Ok::<Option<Seq<(Seq<char>, YNode)>>, FloppyFault>(None),
            Err(e) => mapping_at(ev(es), key@) matches Err(f) && floppy_reports(e, f),
        },
{
    match find_entry(es, key) {
        None => Ok(None),
        Some(i) => {
            assert(ev(es)[i as int].1 == node_view(es@[i as int].1));
            match &es[i].1 {
                Node::Scalar(_) => Err(FloppyError::NotMapping(key.to_owned())),
                Node::Mapping(m) => {
                    proof {
                        lemma_mapping_view(*m);
                    }
                    Ok(Some(m))
                },
            }
        },
    }
}

/// `Err` with the first key of `es` that is none of `keys`.
fn require_only(es: &Vec<(Vec<char>, Node)>, keys: &[&str]) -> (r: Result<(), FloppyError>)
    ensures
        match r {
            Ok(()) => unknown_key(ev(es), keys@.map_values(|k: &str| k@), 0) is None,
            Err(e) => unknown_key(ev(es), keys@.map_values(|k: &str| k@), 0) matches Some(k) && e
                == FloppyError::UnknownKey(e->UnknownKey_0) && e->UnknownKey_0@ == k,
        },
{
    let allowed = key_list(keys);
    match first_unknown(es, &allowed) {
        None => Ok(()),
        Some(i) => Err(FloppyError::UnknownKey(textbuf::string_of(es[i].0.as_slice()))),
    }
}

/// The bytes of one side, read from the `sides` mapping.
fn side_bytes(sides: &Vec<(Vec<char>, Node)>, side: Side) -> (r: Result<Vec<u8>, FloppyError>)
    ensures
        match r {
            Ok(b) => read_side(ev(sides), side) == Ok::<Seq<u8>, FloppyFault>(b@),
            Err(e) => read_side(ev(sides), side) matches Err(f) && floppy_reports(e, f),
        },
{
    let node = match mapping_of(sides, side.key()) {
        Err(e) => {
            return Err(e);
        },
        Ok(None) => {
            return Err(FloppyError::SideMissing(side));
        },
        Ok(Some(m)) => m,
    };
    proof {
        reveal_strlit("encoding");
        reveal_strlit("bytes");
        reveal_strlit("addressed-hex");
    }
    let keys: [&str; 2] = ["encoding", "bytes"];
    let r0 = require_only(node, keys.as_slice());
    proof {
        assert(keys@.map_values(|k: &str| k@) =~= side_keys());
    }
    match r0 {
        Err(e) => {
            return Err(e);
        },
        Ok(()) => {},
    }
    let enc = match scalar_of(node, "encoding") {
        Err(e) => {
            return Err(e);
        },
        Ok(x) => x,
    };
    let good = match &enc {
        Some(v) => key_is(v, "addressed-hex"),
        None => false,
    };
    proof {
        if good != (match enc {
            Some(v) => Some(v@),
            None => None::<Seq<char>>,
        } == Some("addressed-hex"@)) {
            assert(false);
        }
    }
    if !good {
        return Err(FloppyError::SideEncoding(side));
    }
    let text = match scalar_of(node, "bytes") {
        Err(e) => {
            return Err(e);
        },
        Ok(None) => {
            return Err(FloppyError::SideMissingBytes(side));
        },
        Ok(Some(t)) => t,
    };
    let st = textbuf::string_of(text.as_slice());
    match parse_addressed_hex(st.as_str(), SIDE_SIZE) {
        Ok(b) => Ok(b),
        Err(e) => Err(FloppyError::SideHex(side, e)),
    }
}

/// Parse a `.floppy.yaml` file.
pub fn parse(text: &str) -> (r: Result<FloppyImage, FloppyError>)
    ensures
        match r {
            Ok(img) => parse_spec(text@) == Ok::<ImageView, FloppyFault>(img@),
            Err(e) => parse_spec(text@) matches Err(f) && floppy_reports(e, f),
        },
{
    proof {
        reveal_strlit("format");
        reveal_strlit("format-version");
        reveal_strlit("disk-name");
        reveal_strlit("saved");
        reveal_strlit("sides");
        reveal_strlit("a");
        reveal_strlit("b");
        reveal_strlit("ce1600f-floppy");
    }
    let root = match parse_yaml(text) {
        Err(e) => {
            return Err(FloppyError::Yaml(e));
        },
        Ok(es) => es,
    };
    let top: [&str; 5] = ["format", "format-version", "disk-name", "saved", "sides"];
    let r0 = require_only(&root, top.as_slice());
    proof {
        assert(top@.map_values(|k: &str| k@) =~= top_keys());
    }
    match r0 {
        Err(e) => {
            return Err(e);
        },
        Ok(()) => {},
    }
    let format = match scalar_of(&root, "format") {
        Err(e) => {
            return Err(e);
        },
        Ok(x) => x,
    };
    let is_floppy = match &format {
        Some(v) => key_is(v, FORMAT_TAG),
        None => false,
    };
    if !is_floppy {
        return Err(FloppyError::NotFloppy);
    }
    let vt = match scalar_of(&root, "format-version") {
        Err(e) => {
            return Err(e);
        },
        Ok(None) => {
            return Err(FloppyError::MissingVersion);
        },
        Ok(Some(v)) => v,
    };
    let version = match parse_int(&vt) {
        None => {
            return Err(FloppyError::VersionNotInt(textbuf::string_of(vt.as_slice())));
        },
        Some(v) => v,
    };
    if version != FORMAT_VERSION {
        return Err(FloppyError::UnsupportedVersion(version));
    }
    let name = match scalar_of(&root, "disk-name") {
        Err(e) => {
            return Err(e);
        },
        Ok(None) => {
            return Err(FloppyError::MissingDiskName);
        },
        Ok(Some(v)) => v,
    };
    if name.len() == 0 {
        return Err(FloppyError::EmptyDiskName);
    }
    let saved = match scalar_of(&root, "saved") {
        Err(e) => {
            return Err(e);
        },
        Ok(x) => x,
    };
    let sides = match mapping_of(&root, "sides") {
        Err(e) => {
            return Err(e);
        },
        Ok(None) => {
            return Err(FloppyError::MissingSides);
        },
        Ok(Some(m)) => m,
    };
    let ab: [&str; 2] = ["a", "b"];
    let r1 = require_only(sides, ab.as_slice());
    proof {
        assert(ab@.map_values(|k: &str| k@) =~= seq!["a"@, "b"@]);
    }
    match r1 {
        Err(e) => {
            return Err(e);
        },
        Ok(()) => {},
    }
    let a = match side_bytes(sides, Side::A) {
        Err(e) => {
            return Err(e);
        },
        Ok(b) => b,
    };
    let b = match side_bytes(sides, Side::B) {
        Err(e) => {
            return Err(e);
        },
        Ok(b) => b,
    };
    let saved_text = match saved {
        Some(v) => Some(textbuf::string_of(v.as_slice())),
        None => None,
    };
    Ok(FloppyImage { disk_name: textbuf::string_of(name.as_slice()), saved: saved_text, sides: [a, b] })
}


// ── writer ───────────────────────────────────────────────────────────────

/// A disk name the writer can put between double quotes.
pub open spec fn name_writable(n: Seq<char>) -> bool {
    n.len() > 0 && !n.contains('"') && !n.contains('\n') && !n.contains('\r')
}

/// The lines `ls`, each indented by six spaces and ended by a newline.
pub open spec fn indented(ls: Seq<Seq<char>>) -> Seq<char>
    decreases ls.len(),
{
    if ls.len() == 0 {
        Seq::empty()
    } else {
        indented(ls.drop_last()) + "      "@ + ls.last() + seq!['\n']
    }
}

/// The part of the file holding one side.
pub open spec fn side_text(s: Side, b: Seq<u8>) -> Seq<char> {
    "  "@ + side_key(s) + ":\n"@ + "    encoding: addressed-hex\n"@ + "    bytes: |\n"@ + indented(
        crate::floppy_image::hex::hex_lines(b, 0),
    )
}

/// The file's header lines, up to `sides:`.
pub open spec fn header_text(name: Seq<char>, saved: Seq<char>) -> Seq<char> {
    "# Calc-U-1600 CE-1600F floppy disk image\n"@ + "format: ce1600f-floppy\n"@ + "format-version: 1\n"@
        + "disk-name: \""@ + name + "\"\n"@ + "saved: "@ + saved + "\n"@ + "sides:\n"@
}

/// Why an image cannot be written.
pub enum FormatFault {
    UnwritableName,
    SideSize(Side, nat),
}

/// Writing an image with the given `saved` timestamp.
pub open spec fn format_spec(img: ImageView, saved: Seq<char>) -> Result<Seq<char>, FormatFault> {
    if !name_writable(img.disk_name) {
        Err(FormatFault::UnwritableName)
    } else if img.side_a.len() != SIDE_SIZE {
        Err(FormatFault::SideSize(Side::A, img.side_a.len()))
    } else if img.side_b.len() != SIDE_SIZE {
        Err(FormatFault::SideSize(Side::B, img.side_b.len()))
    } else {
        Ok(header_text(img.disk_name, saved) + side_text(Side::A, img.side_a) + side_text(Side::B, img.side_b))
    }
}

/// `e` reports the fault `f` of writing an image named `name`.
pub open spec fn format_reports(e: FloppyError, f: FormatFault, name: Seq<char>) -> bool {
    match (e, f) {
        (FloppyError::UnwritableName(n), FormatFault::UnwritableName) => n@ == name,
        (FloppyError::SideSize(a, n), FormatFault::SideSize(b, m)) => a == b && n == m,
        _ => false,
    }
}

/// Appends one side's part of the file.
fn push_side(out: &mut String, side: Side, bytes: &[u8])
    ensures
        final(out)@ == old(out)@ + side_text(side, bytes@),
{
    let ghost start = out@;
    textbuf::push_str(out, "  ");
    textbuf::push_str(out, side.key());
    textbuf::push_str(out, ":\n");
    textbuf::push_str(out, "    encoding: addressed-hex\n");
    textbuf::push_str(out, "    bytes: |\n");
    let ghost head = out@;
    let lines = format_addressed_hex(bytes);
    let ghost hl = crate::floppy_image::hex::hex_lines(bytes@, 0);
    let mut k: usize = 0;
    assert(hl.take(0) =~= Seq::<Seq<char>>::empty());
    while k < lines.len()
        invariant
            k <= lines@.len() == hl.len(),
            hl == crate::floppy_image::hex::hex_lines(bytes@, 0),
            forall|j: int| 0 <= j < lines@.len() ==> (#[trigger] lines@[j])@ == hl[j],
            out@ == head + indented(hl.take(k as int)),
        decreases lines@.len() - k,
    {
        textbuf::push_str(out, "      ");
        textbuf::push_str(out, lines[k].as_str());
        textbuf::push_char(out, '\n');
        assert(hl.take(k + 1).drop_last() =~= hl.take(k as int));
        assert(out@ =~= head + indented(hl.take(k + 1)));
        k = k + 1;
    }
    assert(hl.take(k as int) =~= hl);
    assert(out@ =~= start + side_text(side, bytes@));
}

/// `s` holds none of `"`, `\n`, `\r` and is not empty.
fn writable_name(s: &str) -> (r: bool)
    ensures
        r == name_writable(s@),
{
    let cs = textbuf::chars_of(s);
    if cs.len() == 0 {
        return false;
    }
    let mut i: usize = 0;
    while i < cs.len()
        invariant
            i <= cs@.len(),
            cs@ == s@,
            forall|j: int| 0 <= j < i ==> cs@[j] != '"' && cs@[j] != '\n' && cs@[j] != '\r',
        decreases cs@.len() - i,
    {
        let c = cs[i];
        if c == '"' || c == '\n' || c == '\r' {
            assert(s@[i as int] == c);
            return false;
        }
        i = i + 1;
    }
    true
}

/// Serialize with the given `saved` timestamp, byte for byte what the emulator writes.
pub fn format_with_saved(img: &FloppyImage, saved: &str) -> (r: Result<String, FloppyError>)
    ensures
        match r {
            Ok(t) => format_spec(img@, saved@) == Ok::<Seq<char>, FormatFault>(t@),
            Err(e) => format_spec(img@, saved@) matches Err(f) && format_reports(e, f, img@.disk_name),
        },
{
    if !writable_name(img.disk_name.as_str()) {
        return Err(FloppyError::UnwritableName(img.disk_name.as_str().to_owned()));
    }
    let a = img.side(Side::A);
    let b = img.side(Side::B);
    if a.len() != SIDE_SIZE {
        return Err(FloppyError::SideSize(Side::A, a.len()));
    }
    if b.len() != SIDE_SIZE {
        return Err(FloppyError::SideSize(Side::B, b.len()));
    }
    let mut out = String::new();
    textbuf::push_str(&mut out, "# Calc-U-1600 CE-1600F floppy disk image\n");
    textbuf::push_str(&mut out, "format: ce1600f-floppy\n");
    textbuf::push_str(&mut out, "format-version: 1\n");
    textbuf::push_str(&mut out, "disk-name: \"");
    textbuf::push_str(&mut out, img.disk_name.as_str());
    textbuf::push_str(&mut out, "\"\n");
    textbuf::push_str(&mut out, "saved: ");
    textbuf::push_str(&mut out, saved);
    textbuf::push_str(&mut out, "\n");
    textbuf::push_str(&mut out, "sides:\n");
    assert(out@ =~= header_text(img@.disk_name, saved@));
    push_side(&mut out, Side::A, a);
    push_side(&mut out, Side::B, b);
    assert(out@ =~= header_text(img@.disk_name, saved@) + side_text(Side::A, img@.side_a) + side_text(
        Side::B,
        img@.side_b,
    ));
    Ok(out)
}


// ── timestamps ───────────────────────────────────────────────────────────

/// Days since 1970-01-01 → (year, month, day) in the proleptic Gregorian calendar
/// (H. Hinnant's `civil_from_days`).
pub open spec fn civil_spec(z0: int) -> (int, int, int) {
    let z = z0 + 719_468;
    let era = z / 146_097;
    let doe = z % 146_097;
    let yoe = (doe - doe / 1460 + doe / 36_524 - doe / 146_096) / 365;
    let doy = doe - (365 * yoe + yoe / 4 - yoe / 100);
    let mp = (5 * doy + 2) / 153;
    let d = doy - (153 * mp + 2) / 5 + 1;
    let m = if mp < 10 {
        mp + 3
    } else {
        mp - 9
    };
    let y = yoe + era * 400 + (if m <= 2 {
        1int
    } else {
        0int
    });
    (y, m, d)
}

/// A year as `{:04}` writes it: zero-padded to four places, a minus sign counted in.
pub open spec fn year_text(y: int) -> Seq<char> {
    if y >= 0 {
        textbuf::padded_decimal(y as nat, 4)
    } else {
        seq!['-'] + textbuf::padded_decimal((-y) as nat, 3)
    }
}

/// `YYYY-MM-DDTHH:MM:SSZ` for `secs` seconds since the Unix epoch.
pub open spec fn iso8601_spec(secs: int) -> Seq<char> {
    let days = secs / 86_400;
    let rem = secs % 86_400;
    let c = civil_spec(days);
    year_text(c.0) + seq!['-'] + textbuf::padded_decimal(c.1 as nat, 2) + seq!['-'] + textbuf::padded_decimal(
        c.2 as nat,
        2,
    ) + seq!['T'] + textbuf::padded_decimal((rem / 3600) as nat, 2) + seq![':'] + textbuf::padded_decimal(
        (rem % 3600 / 60) as nat,
        2,
    ) + seq![':'] + textbuf::padded_decimal((rem % 60) as nat, 2) + seq!['Z']
}

/// Euclidean quotient and remainder of `a` by a positive `b`.
pub fn div_rem_euclid(a: i64, b: i64) -> (r: (i64, i64))
    requires
        b > 0,
    ensures
        r.0 == a as int / b as int,
        r.1 == a as int % b as int,
        0 <= r.1 < b,
{
    if a >= 0 {
        let q = a / b;
        let m = a % b;
        proof {
            vstd::arithmetic::div_mod::lemma_fundamental_div_mod(a as int, b as int);
        }
        (q, m)
    } else {
        let n = -(a + 1);
        let q0 = n / b;
        let r0 = n % b;
        proof {
            vstd::arithmetic::div_mod::lemma_fundamental_div_mod(n as int, b as int);
            assert(n == q0 * b + r0) by (nonlinear_arith)
                requires
                    n == b * q0 + r0,
            ;
            assert(0 <= r0 < b);
            assert(a == (-q0 - 1) * b + (b - 1 - r0)) by (nonlinear_arith)
                requires
                    n == q0 * b + r0,
                    n == -(a + 1),
            ;
            assert(0 <= q0 * b <= n) by (nonlinear_arith)
                requires
                    n == q0 * b + r0,
                    0 <= r0 < b,
                    n >= 0,
                    b > 0,
            ;
            assert(q0 <= n) by (nonlinear_arith)
                requires
                    0 <= q0 * b <= n,
                    b > 0,
                    q0 >= 0,
            ;
            vstd::arithmetic::div_mod::lemma_fundamental_div_mod_converse(
                a as int,
                b as int,
                -q0 - 1,
                b - 1 - r0,
            );
        }
        (-q0 - 1, b - 1 - r0)
    }
}

/// Days since 1970-01-01 → (year, month, day), proleptic Gregorian.
pub fn civil_from_days(z: i64) -> (r: (i64, u32, u32))
    requires
        z <= i64::MAX - 719_468,
    ensures
        r.0 == civil_spec(z as int).0,
        r.1 == civil_spec(z as int).1,
        r.2 == civil_spec(z as int).2,
        1 <= r.1 <= 12,
        1 <= r.2 <= 31,
{
    let z2 = z + 719_468;
    let (era, doe) = div_rem_euclid(z2, 146_097);
    proof {
        vstd::arithmetic::div_mod::lemma_fundamental_div_mod(z2 as int, 146_097);
    }
    assert(era >= -63_200_000_000_000 && era <= 63_200_000_000_000);
    let yoe = (doe - doe / 1460 + doe / 36_524 - doe / 146_096) / 365;
    assert(0 <= yoe <= 399) by (nonlinear_arith)
        requires
            0 <= doe < 146_097,
            yoe == (doe - doe / 1460 + doe / 36_524 - doe / 146_096) / 365,
    ;
    let doy = doe - (365 * yoe + yoe / 4 - yoe / 100);
    assert(0 <= doy <= 365) by (nonlinear_arith)
        requires
            0 <= doe < 146_097,
            yoe == (doe - doe / 1460 + doe / 36_524 - doe / 146_096) / 365,
            doy == doe - (365 * yoe + yoe / 4 - yoe / 100),
    ;
    let mp = (5 * doy + 2) / 153;
    let d = doy - (153 * mp + 2) / 5 + 1;
    assert(0 <= mp <= 11 && 1 <= d <= 31) by (nonlinear_arith)
        requires
            0 <= doy <= 365,
            mp == (5 * doy + 2) / 153,
            d == doy - (153 * mp + 2) / 5 + 1,
    ;
    let m = if mp < 10 {
        mp + 3
    } else {
        mp - 9
    };
    let y = yoe + era * 400 + if m <= 2 {
        1
    } else {
        0
    };
    (y, m as u32, d as u32)
}


/// `YYYY-MM-DDTHH:MM:SSZ` for `secs` seconds since the Unix epoch.
pub fn iso8601_from_unix(secs: i64) -> (s: String)
    ensures
        s@ == iso8601_spec(secs as int),
{
    let (days, rem) = div_rem_euclid(secs, 86_400);
    proof {
        vstd::arithmetic::div_mod::lemma_fundamental_div_mod(secs as int, 86_400);
    }
    assert(days <= 200_000_000_000_000 && days >= -200_000_000_000_000);
    let (y, m, d) = civil_from_days(days);
    let mut s = String::new();
    let ghost c = civil_spec(days as int);
    assert(y >= -100_000_000_000_000_000 && y <= 100_000_000_000_000_000) by {
        assert(c.0 == y);
        vstd::arithmetic::div_mod::lemma_fundamental_div_mod(days + 719_468, 146_097);
    }
    if y >= 0 {
        textbuf::push_padded_decimal(&mut s, y as u64, 4);
    } else {
        textbuf::push_char(&mut s, '-');
        textbuf::push_padded_decimal(&mut s, (-y) as u64, 3);
    }
    assert(s@ =~= year_text(c.0));
    textbuf::push_char(&mut s, '-');
    textbuf::push_padded_decimal(&mut s, m as u64, 2);
    textbuf::push_char(&mut s, '-');
    textbuf::push_padded_decimal(&mut s, d as u64, 2);
    textbuf::push_char(&mut s, 'T');
    textbuf::push_padded_decimal(&mut s, (rem / 3600) as u64, 2);
    textbuf::push_char(&mut s, ':');
    textbuf::push_padded_decimal(&mut s, (rem % 3600 / 60) as u64, 2);
    textbuf::push_char(&mut s, ':');
    textbuf::push_padded_decimal(&mut s, (rem % 60) as u64, 2);
    textbuf::push_char(&mut s, 'Z');
    assert(s@ =~= iso8601_spec(secs as int));
    s
}

/// Whole seconds since the Unix epoch by the system clock (std `SystemTime::now`,
/// then `duration_since(UNIX_EPOCH)`); `None` when the clock reads earlier than the
/// epoch. Nothing is claimed of the value: it is the time.
#[verifier::external_body]
fn system_clock_secs() -> (r: Option<u64>) {
    std::time::SystemTime::now().duration_since(std::time::UNIX_EPOCH).ok().map(|d| d.as_secs())
}

/// The current time as whole seconds since the Unix epoch (0 before it).
pub(crate) fn unix_now() -> (secs: i64) {
    match system_clock_secs() {
        Some(v) => v as i64,
        None => 0,
    }
}

/// Current UTC time as `YYYY-MM-DDTHH:MM:SSZ`.
pub fn now_iso8601_utc() -> (s: String)
    ensures
        exists|t: i64| s@ == iso8601_spec(t as int),
{
    let t = unix_now();
    iso8601_from_unix(t)
}

/// Serialize with `saved` set to the current UTC time.
pub fn format(img: &FloppyImage) -> (r: Result<String, FloppyError>)
    ensures
        r is Ok <==> format_spec(img@, Seq::empty()) is Ok,
        match r {
            Ok(t) => exists|secs: i64| format_spec(img@, iso8601_spec(secs as int)) == Ok::<Seq<char>, FormatFault>(t@),
            Err(e) => format_spec(img@, Seq::empty()) matches Err(f) && format_reports(e, f, img@.disk_name),
        },
{
    let saved = now_iso8601_utc();
    format_with_saved(img, saved.as_str())
}

} // verus!
