//! Code page 437, the character set of the Sharp pocket computers' serial and disk
//! files: bytes `0x00..=0x7F` are ASCII, `0x80..=0xFF` the IBM PC graphics/accents.

use vstd::prelude::*;

use crate::textbuf::push_char;

verus! {

/// The character a CP437 byte stands for.
pub open spec fn cp437_char(b: u8) -> char {
    if b < 0x80 {
        b as char
    } else {
        high_char(b)
    }
}

/// Characters of the upper half of the code page.
pub open spec fn high_char(b: u8) -> char {
    match b {
        0x80 => '\u{00C7}',
        0x81 => '\u{00FC}',
        0x82 => '\u{00E9}',
        0x83 => '\u{00E2}',
        0x84 => '\u{00E4}',
        0x85 => '\u{00E0}',
        0x86 => '\u{00E5}',
        0x87 => '\u{00E7}',
        0x88 => '\u{00EA}',
        0x89 => '\u{00EB}',
        0x8A => '\u{00E8}',
        0x8B => '\u{00EF}',
        0x8C => '\u{00EE}',
        0x8D => '\u{00EC}',
        0x8E => '\u{00C4}',
        0x8F => '\u{00C5}',
        0x90 => '\u{00C9}',
        0x91 => '\u{00E6}',
        0x92 => '\u{00C6}',
        0x93 => '\u{00F4}',
        0x94 => '\u{00F6}',
        0x95 => '\u{00F2}',
        0x96 => '\u{00FB}',
        0x97 => '\u{00F9}',
        0x98 => '\u{00FF}',
        0x99 => '\u{00D6}',
        0x9A => '\u{00DC}',
        0x9B => '\u{00A2}',
        0x9C => '\u{00A3}',
        0x9D => '\u{00A5}',
        0x9E => '\u{20A7}',
        0x9F => '\u{0192}',
        0xA0 => '\u{00E1}',
        0xA1 => '\u{00ED}',
        0xA2 => '\u{00F3}',
        0xA3 => '\u{00FA}',
        0xA4 => '\u{00F1}',
        0xA5 => '\u{00D1}',
        0xA6 => '\u{00AA}',
        0xA7 => '\u{00BA}',
        0xA8 => '\u{00BF}',
        0xA9 => '\u{2310}',
        0xAA => '\u{00AC}',
        0xAB => '\u{00BD}',
        0xAC => '\u{00BC}',
        0xAD => '\u{00A1}',
        0xAE => '\u{00AB}',
        0xAF => '\u{00BB}',
        0xB0 => '\u{2591}',
        0xB1 => '\u{2592}',
        0xB2 => '\u{2593}',
        0xB3 => '\u{2502}',
        0xB4 => '\u{2524}',
        0xB5 => '\u{2561}',
        0xB6 => '\u{2562}',
        0xB7 => '\u{2556}',
        0xB8 => '\u{2555}',
        0xB9 => '\u{2563}',
        0xBA => '\u{2551}',
        0xBB => '\u{2557}',
        0xBC => '\u{255D}',
        0xBD => '\u{255C}',
        0xBE => '\u{255B}',
        0xBF => '\u{2510}',
        0xC0 => '\u{2514}',
        0xC1 => '\u{2534}',
        0xC2 => '\u{252C}',
        0xC3 => '\u{251C}',
        0xC4 => '\u{2500}',
        0xC5 => '\u{253C}',
        0xC6 => '\u{255E}',
        0xC7 => '\u{255F}',
        0xC8 => '\u{255A}',
        0xC9 => '\u{2554}',
        0xCA => '\u{2569}',
        0xCB => '\u{2566}',
        0xCC => '\u{2560}',
        0xCD => '\u{2550}',
        0xCE => '\u{256C}',
        0xCF => '\u{2567}',
        0xD0 => '\u{2568}',
        0xD1 => '\u{2564}',
        0xD2 => '\u{2565}',
        0xD3 => '\u{2559}',
        0xD4 => '\u{2558}',
        0xD5 => '\u{2552}',
        0xD6 => '\u{2553}',
        0xD7 => '\u{256B}',
        0xD8 => '\u{256A}',
        0xD9 => '\u{2518}',
        0xDA => '\u{250C}',
        0xDB => '\u{2588}',
        0xDC => '\u{2584}',
        0xDD => '\u{258C}',
        0xDE => '\u{2590}',
        0xDF => '\u{2580}',
        0xE0 => '\u{03B1}',
        0xE1 => '\u{00DF}',
        0xE2 => '\u{0393}',
        0xE3 => '\u{03C0}',
        0xE4 => '\u{03A3}',
        0xE5 => '\u{03C3}',
        0xE6 => '\u{00B5}',
        0xE7 => '\u{03C4}',
        0xE8 => '\u{03A6}',
        0xE9 => '\u{0398}',
        0xEA => '\u{03A9}',
        0xEB => '\u{03B4}',
        0xEC => '\u{221E}',
        0xED => '\u{03C6}',
        0xEE => '\u{03B5}',
        0xEF => '\u{2229}',
        0xF0 => '\u{2261}',
        0xF1 => '\u{00B1}',
        0xF2 => '\u{2265}',
        0xF3 => '\u{2264}',
        0xF4 => '\u{2320}',
        0xF5 => '\u{2321}',
        0xF6 => '\u{00F7}',
        0xF7 => '\u{2248}',
        0xF8 => '\u{00B0}',
        0xF9 => '\u{2219}',
        0xFA => '\u{00B7}',
        0xFB => '\u{221A}',
        0xFC => '\u{207F}',
        0xFD => '\u{00B2}',
        0xFE => '\u{25A0}',
        0xFF => '\u{00A0}',
        _ => '\u{0}',
    }
}

/// The CP437 byte of a character, if it has one.
pub open spec fn cp437_byte(c: char) -> Option<u8> {
    if (c as u32) < 0x80 {
        Some(c as u8)
    } else {
        high_byte(c)
    }
}

pub open spec fn high_byte(c: char) -> Option<u8> {
    match c {
        '\u{00C7}' => Some(0x80u8),
        '\u{00FC}' => Some(0x81u8),
        '\u{00E9}' => Some(0x82u8),
        '\u{00E2}' => Some(0x83u8),
        '\u{00E4}' => Some(0x84u8),
        '\u{00E0}' => Some(0x85u8),
        '\u{00E5}' => Some(0x86u8),
        '\u{00E7}' => Some(0x87u8),
        '\u{00EA}' => Some(0x88u8),
        '\u{00EB}' => Some(0x89u8),
        '\u{00E8}' => Some(0x8Au8),
        '\u{00EF}' => Some(0x8Bu8),
        '\u{00EE}' => Some(0x8Cu8),
        '\u{00EC}' => Some(0x8Du8),
        '\u{00C4}' => Some(0x8Eu8),
        '\u{00C5}' => Some(0x8Fu8),
        '\u{00C9}' => Some(0x90u8),
        '\u{00E6}' => Some(0x91u8),
        '\u{00C6}' => Some(0x92u8),
        '\u{00F4}' => Some(0x93u8),
        '\u{00F6}' => Some(0x94u8),
        '\u{00F2}' => Some(0x95u8),
        '\u{00FB}' => Some(0x96u8),
        '\u{00F9}' => Some(0x97u8),
        '\u{00FF}' => Some(0x98u8),
        '\u{00D6}' => Some(0x99u8),
        '\u{00DC}' => Some(0x9Au8),
        '\u{00A2}' => Some(0x9Bu8),
        '\u{00A3}' => Some(0x9Cu8),
        '\u{00A5}' => Some(0x9Du8),
        '\u{20A7}' => Some(0x9Eu8),
        '\u{0192}' => Some(0x9Fu8),
        '\u{00E1}' => Some(0xA0u8),
        '\u{00ED}' => Some(0xA1u8),
        '\u{00F3}' => Some(0xA2u8),
        '\u{00FA}' => Some(0xA3u8),
        '\u{00F1}' => Some(0xA4u8),
        '\u{00D1}' => Some(0xA5u8),
        '\u{00AA}' => Some(0xA6u8),
        '\u{00BA}' => Some(0xA7u8),
        '\u{00BF}' => Some(0xA8u8),
        '\u{2310}' => Some(0xA9u8),
        '\u{00AC}' => Some(0xAAu8),
        '\u{00BD}' => Some(0xABu8),
        '\u{00BC}' => Some(0xACu8),
        '\u{00A1}' => Some(0xADu8),
        '\u{00AB}' => Some(0xAEu8),
        '\u{00BB}' => Some(0xAFu8),
        '\u{2591}' => Some(0xB0u8),
        '\u{2592}' => Some(0xB1u8),
        '\u{2593}' => Some(0xB2u8),
        '\u{2502}' => Some(0xB3u8),
        '\u{2524}' => Some(0xB4u8),
        '\u{2561}' => Some(0xB5u8),
        '\u{2562}' => Some(0xB6u8),
        '\u{2556}' => Some(0xB7u8),
        '\u{2555}' => Some(0xB8u8),
        '\u{2563}' => Some(0xB9u8),
        '\u{2551}' => Some(0xBAu8),
        '\u{2557}' => Some(0xBBu8),
        '\u{255D}' => Some(0xBCu8),
        '\u{255C}' => Some(0xBDu8),
        '\u{255B}' => Some(0xBEu8),
        '\u{2510}' => Some(0xBFu8),
        '\u{2514}' => Some(0xC0u8),
        '\u{2534}' => Some(0xC1u8),
        '\u{252C}' => Some(0xC2u8),
        '\u{251C}' => Some(0xC3u8),
        '\u{2500}' => Some(0xC4u8),
        '\u{253C}' => Some(0xC5u8),
        '\u{255E}' => Some(0xC6u8),
        '\u{255F}' => Some(0xC7u8),
        '\u{255A}' => Some(0xC8u8),
        '\u{2554}' => Some(0xC9u8),
        '\u{2569}' => Some(0xCAu8),
        '\u{2566}' => Some(0xCBu8),
        '\u{2560}' => Some(0xCCu8),
        '\u{2550}' => Some(0xCDu8),
        '\u{256C}' => Some(0xCEu8),
        '\u{2567}' => Some(0xCFu8),
        '\u{2568}' => Some(0xD0u8),
        '\u{2564}' => Some(0xD1u8),
        '\u{2565}' => Some(0xD2u8),
        '\u{2559}' => Some(0xD3u8),
        '\u{2558}' => Some(0xD4u8),
        '\u{2552}' => Some(0xD5u8),
        '\u{2553}' => Some(0xD6u8),
        '\u{256B}' => Some(0xD7u8),
        '\u{256A}' => Some(0xD8u8),
        '\u{2518}' => Some(0xD9u8),
        '\u{250C}' => Some(0xDAu8),
        '\u{2588}' => Some(0xDBu8),
        '\u{2584}' => Some(0xDCu8),
        '\u{258C}' => Some(0xDDu8),
        '\u{2590}' => Some(0xDEu8),
        '\u{2580}' => Some(0xDFu8),
        '\u{03B1}' => Some(0xE0u8),
        '\u{00DF}' => Some(0xE1u8),
        '\u{0393}' => Some(0xE2u8),
        '\u{03C0}' => Some(0xE3u8),
        '\u{03A3}' => Some(0xE4u8),
        '\u{03C3}' => Some(0xE5u8),
        '\u{00B5}' => Some(0xE6u8),
        '\u{03C4}' => Some(0xE7u8),
        '\u{03A6}' => Some(0xE8u8),
        '\u{0398}' => Some(0xE9u8),
        '\u{03A9}' => Some(0xEAu8),
        '\u{03B4}' => Some(0xEBu8),
        '\u{221E}' => Some(0xECu8),
        '\u{03C6}' => Some(0xEDu8),
        '\u{03B5}' => Some(0xEEu8),
        '\u{2229}' => Some(0xEFu8),
        '\u{2261}' => Some(0xF0u8),
        '\u{00B1}' => Some(0xF1u8),
        '\u{2265}' => Some(0xF2u8),
        '\u{2264}' => Some(0xF3u8),
        '\u{2320}' => Some(0xF4u8),
        '\u{2321}' => Some(0xF5u8),
        '\u{00F7}' => Some(0xF6u8),
        '\u{2248}' => Some(0xF7u8),
        '\u{00B0}' => Some(0xF8u8),
        '\u{2219}' => Some(0xF9u8),
        '\u{00B7}' => Some(0xFAu8),
        '\u{221A}' => Some(0xFBu8),
        '\u{207F}' => Some(0xFCu8),
        '\u{00B2}' => Some(0xFDu8),
        '\u{25A0}' => Some(0xFEu8),
        '\u{00A0}' => Some(0xFFu8),
        _ => None,
    }
}

/// Byte written for a character with no CP437 equivalent.
pub const REPLACEMENT: u8 = 0x3F;

/// `c`'s byte, or [`REPLACEMENT`] when it has none.
pub open spec fn lossy_byte(c: char) -> u8 {
    match cp437_byte(c) {
        Some(b) => b,
        None => REPLACEMENT,
    }
}

pub open spec fn decode_seq(bytes: Seq<u8>) -> Seq<char> {
    bytes.map_values(|b: u8| cp437_char(b))
}

pub open spec fn encode_lossy_seq(chars: Seq<char>) -> Seq<u8> {
    chars.map_values(|c: char| lossy_byte(c))
}

/// The character for one CP437 byte.
pub fn to_char(b: u8) -> (c: char)
    ensures
        c == cp437_char(b),
{
    if b < 0x80 {
        b as char
    } else {
        high_to_char(b)
    }
}

fn high_to_char(b: u8) -> (c: char)
    requires
        b >= 0x80,
    ensures
        c == high_char(b),
{
    match b {
        0x80 => '\u{00C7}',
        0x81 => '\u{00FC}',
        0x82 => '\u{00E9}',
        0x83 => '\u{00E2}',
        0x84 => '\u{00E4}',
        0x85 => '\u{00E0}',
        0x86 => '\u{00E5}',
        0x87 => '\u{00E7}',
        0x88 => '\u{00EA}',
        0x89 => '\u{00EB}',
        0x8A => '\u{00E8}',
        0x8B => '\u{00EF}',
        0x8C => '\u{00EE}',
        0x8D => '\u{00EC}',
        0x8E => '\u{00C4}',
        0x8F => '\u{00C5}',
        0x90 => '\u{00C9}',
        0x91 => '\u{00E6}',
        0x92 => '\u{00C6}',
        0x93 => '\u{00F4}',
        0x94 => '\u{00F6}',
        0x95 => '\u{00F2}',
        0x96 => '\u{00FB}',
        0x97 => '\u{00F9}',
        0x98 => '\u{00FF}',
        0x99 => '\u{00D6}',
        0x9A => '\u{00DC}',
        0x9B => '\u{00A2}',
        0x9C => '\u{00A3}',
        0x9D => '\u{00A5}',
        0x9E => '\u{20A7}',
        0x9F => '\u{0192}',
        0xA0 => '\u{00E1}',
        0xA1 => '\u{00ED}',
        0xA2 => '\u{00F3}',
        0xA3 => '\u{00FA}',
        0xA4 => '\u{00F1}',
        0xA5 => '\u{00D1}',
        0xA6 => '\u{00AA}',
        0xA7 => '\u{00BA}',
        0xA8 => '\u{00BF}',
        0xA9 => '\u{2310}',
        0xAA => '\u{00AC}',
        0xAB => '\u{00BD}',
        0xAC => '\u{00BC}',
        0xAD => '\u{00A1}',
        0xAE => '\u{00AB}',
        0xAF => '\u{00BB}',
        0xB0 => '\u{2591}',
        0xB1 => '\u{2592}',
        0xB2 => '\u{2593}',
        0xB3 => '\u{2502}',
        0xB4 => '\u{2524}',
        0xB5 => '\u{2561}',
        0xB6 => '\u{2562}',
        0xB7 => '\u{2556}',
        0xB8 => '\u{2555}',
        0xB9 => '\u{2563}',
        0xBA => '\u{2551}',
        0xBB => '\u{2557}',
        0xBC => '\u{255D}',
        0xBD => '\u{255C}',
        0xBE => '\u{255B}',
        0xBF => '\u{2510}',
        0xC0 => '\u{2514}',
        0xC1 => '\u{2534}',
        0xC2 => '\u{252C}',
        0xC3 => '\u{251C}',
        0xC4 => '\u{2500}',
        0xC5 => '\u{253C}',
        0xC6 => '\u{255E}',
        0xC7 => '\u{255F}',
        0xC8 => '\u{255A}',
        0xC9 => '\u{2554}',
        0xCA => '\u{2569}',
        0xCB => '\u{2566}',
        0xCC => '\u{2560}',
        0xCD => '\u{2550}',
        0xCE => '\u{256C}',
        0xCF => '\u{2567}',
        0xD0 => '\u{2568}',
        0xD1 => '\u{2564}',
        0xD2 => '\u{2565}',
        0xD3 => '\u{2559}',
        0xD4 => '\u{2558}',
        0xD5 => '\u{2552}',
        0xD6 => '\u{2553}',
        0xD7 => '\u{256B}',
        0xD8 => '\u{256A}',
        0xD9 => '\u{2518}',
        0xDA => '\u{250C}',
        0xDB => '\u{2588}',
        0xDC => '\u{2584}',
        0xDD => '\u{258C}',
        0xDE => '\u{2590}',
        0xDF => '\u{2580}',
        0xE0 => '\u{03B1}',
        0xE1 => '\u{00DF}',
        0xE2 => '\u{0393}',
        0xE3 => '\u{03C0}',
        0xE4 => '\u{03A3}',
        0xE5 => '\u{03C3}',
        0xE6 => '\u{00B5}',
        0xE7 => '\u{03C4}',
        0xE8 => '\u{03A6}',
        0xE9 => '\u{0398}',
        0xEA => '\u{03A9}',
        0xEB => '\u{03B4}',
        0xEC => '\u{221E}',
        0xED => '\u{03C6}',
        0xEE => '\u{03B5}',
        0xEF => '\u{2229}',
        0xF0 => '\u{2261}',
        0xF1 => '\u{00B1}',
        0xF2 => '\u{2265}',
        0xF3 => '\u{2264}',
        0xF4 => '\u{2320}',
        0xF5 => '\u{2321}',
        0xF6 => '\u{00F7}',
        0xF7 => '\u{2248}',
        0xF8 => '\u{00B0}',
        0xF9 => '\u{2219}',
        0xFA => '\u{00B7}',
        0xFB => '\u{221A}',
        0xFC => '\u{207F}',
        0xFD => '\u{00B2}',
        0xFE => '\u{25A0}',
        0xFF => '\u{00A0}',
        _ => '\u{0}',
    }
}

/// The CP437 byte for `c`, `None` if the Sharp character set has no such character.
pub fn to_byte(c: char) -> (r: Option<u8>)
    ensures
        r == cp437_byte(c),
{
    if (c as u32) < 0x80 {
        Some(c as u32 as u8)
    } else {
        high_to_byte(c)
    }
}

fn high_to_byte(c: char) -> (r: Option<u8>)
    ensures
        r == high_byte(c),
{
    match c {
        '\u{00C7}' => Some(0x80u8),
        '\u{00FC}' => Some(0x81u8),
        '\u{00E9}' => Some(0x82u8),
        '\u{00E2}' => Some(0x83u8),
        '\u{00E4}' => Some(0x84u8),
        '\u{00E0}' => Some(0x85u8),
        '\u{00E5}' => Some(0x86u8),
        '\u{00E7}' => Some(0x87u8),
        '\u{00EA}' => Some(0x88u8),
        '\u{00EB}' => Some(0x89u8),
        '\u{00E8}' => Some(0x8Au8),
        '\u{00EF}' => Some(0x8Bu8),
        '\u{00EE}' => Some(0x8Cu8),
        '\u{00EC}' => Some(0x8Du8),
        '\u{00C4}' => Some(0x8Eu8),
        '\u{00C5}' => Some(0x8Fu8),
        '\u{00C9}' => Some(0x90u8),
        '\u{00E6}' => Some(0x91u8),
        '\u{00C6}' => Some(0x92u8),
        '\u{00F4}' => Some(0x93u8),
        '\u{00F6}' => Some(0x94u8),
        '\u{00F2}' => Some(0x95u8),
        '\u{00FB}' => Some(0x96u8),
        '\u{00F9}' => Some(0x97u8),
        '\u{00FF}' => Some(0x98u8),
        '\u{00D6}' => Some(0x99u8),
        '\u{00DC}' => Some(0x9Au8),
        '\u{00A2}' => Some(0x9Bu8),
        '\u{00A3}' => Some(0x9Cu8),
        '\u{00A5}' => Some(0x9Du8),
        '\u{20A7}' => Some(0x9Eu8),
        '\u{0192}' => Some(0x9Fu8),
        '\u{00E1}' => Some(0xA0u8),
        '\u{00ED}' => Some(0xA1u8),
        '\u{00F3}' => Some(0xA2u8),
        '\u{00FA}' => Some(0xA3u8),
        '\u{00F1}' => Some(0xA4u8),
        '\u{00D1}' => Some(0xA5u8),
        '\u{00AA}' => Some(0xA6u8),
        '\u{00BA}' => Some(0xA7u8),
        '\u{00BF}' => Some(0xA8u8),
        '\u{2310}' => Some(0xA9u8),
        '\u{00AC}' => Some(0xAAu8),
        '\u{00BD}' => Some(0xABu8),
        '\u{00BC}' => Some(0xACu8),
        '\u{00A1}' => Some(0xADu8),
        '\u{00AB}' => Some(0xAEu8),
        '\u{00BB}' => Some(0xAFu8),
        '\u{2591}' => Some(0xB0u8),
        '\u{2592}' => Some(0xB1u8),
        '\u{2593}' => Some(0xB2u8),
        '\u{2502}' => Some(0xB3u8),
        '\u{2524}' => Some(0xB4u8),
        '\u{2561}' => Some(0xB5u8),
        '\u{2562}' => Some(0xB6u8),
        '\u{2556}' => Some(0xB7u8),
        '\u{2555}' => Some(0xB8u8),
        '\u{2563}' => Some(0xB9u8),
        '\u{2551}' => Some(0xBAu8),
        '\u{2557}' => Some(0xBBu8),
        '\u{255D}' => Some(0xBCu8),
        '\u{255C}' => Some(0xBDu8),
        '\u{255B}' => Some(0xBEu8),
        '\u{2510}' => Some(0xBFu8),
        '\u{2514}' => Some(0xC0u8),
        '\u{2534}' => Some(0xC1u8),
        '\u{252C}' => Some(0xC2u8),
        '\u{251C}' => Some(0xC3u8),
        '\u{2500}' => Some(0xC4u8),
        '\u{253C}' => Some(0xC5u8),
        '\u{255E}' => Some(0xC6u8),
        '\u{255F}' => Some(0xC7u8),
        '\u{255A}' => Some(0xC8u8),
        '\u{2554}' => Some(0xC9u8),
        '\u{2569}' => Some(0xCAu8),
        '\u{2566}' => Some(0xCBu8),
        '\u{2560}' => Some(0xCCu8),
        '\u{2550}' => Some(0xCDu8),
        '\u{256C}' => Some(0xCEu8),
        '\u{2567}' => Some(0xCFu8),
        '\u{2568}' => Some(0xD0u8),
        '\u{2564}' => Some(0xD1u8),
        '\u{2565}' => Some(0xD2u8),
        '\u{2559}' => Some(0xD3u8),
        '\u{2558}' => Some(0xD4u8),
        '\u{2552}' => Some(0xD5u8),
        '\u{2553}' => Some(0xD6u8),
        '\u{256B}' => Some(0xD7u8),
        '\u{256A}' => Some(0xD8u8),
        '\u{2518}' => Some(0xD9u8),
        '\u{250C}' => Some(0xDAu8),
        '\u{2588}' => Some(0xDBu8),
        '\u{2584}' => Some(0xDCu8),
        '\u{258C}' => Some(0xDDu8),
        '\u{2590}' => Some(0xDEu8),
        '\u{2580}' => Some(0xDFu8),
        '\u{03B1}' => Some(0xE0u8),
        '\u{00DF}' => Some(0xE1u8),
        '\u{0393}' => Some(0xE2u8),
        '\u{03C0}' => Some(0xE3u8),
        '\u{03A3}' => Some(0xE4u8),
        '\u{03C3}' => Some(0xE5u8),
        '\u{00B5}' => Some(0xE6u8),
        '\u{03C4}' => Some(0xE7u8),
        '\u{03A6}' => Some(0xE8u8),
        '\u{0398}' => Some(0xE9u8),
        '\u{03A9}' => Some(0xEAu8),
        '\u{03B4}' => Some(0xEBu8),
        '\u{221E}' => Some(0xECu8),
        '\u{03C6}' => Some(0xEDu8),
        '\u{03B5}' => Some(0xEEu8),
        '\u{2229}' => Some(0xEFu8),
        '\u{2261}' => Some(0xF0u8),
        '\u{00B1}' => Some(0xF1u8),
        '\u{2265}' => Some(0xF2u8),
        '\u{2264}' => Some(0xF3u8),
        '\u{2320}' => Some(0xF4u8),
        '\u{2321}' => Some(0xF5u8),
        '\u{00F7}' => Some(0xF6u8),
        '\u{2248}' => Some(0xF7u8),
        '\u{00B0}' => Some(0xF8u8),
        '\u{2219}' => Some(0xF9u8),
        '\u{00B7}' => Some(0xFAu8),
        '\u{221A}' => Some(0xFBu8),
        '\u{207F}' => Some(0xFCu8),
        '\u{00B2}' => Some(0xFDu8),
        '\u{25A0}' => Some(0xFEu8),
        '\u{00A0}' => Some(0xFFu8),
        _ => None,
    }
}

/// Decode CP437 bytes to text, one character per byte.
pub fn decode(bytes: &[u8]) -> (s: String)
    ensures
        s@ == decode_seq(bytes@),
{
    let mut s = String::new();
    let mut i: usize = 0;
    while i < bytes.len()
        invariant
            i <= bytes.len(),
            s@ == decode_seq(bytes@.take(i as int)),
        decreases bytes.len() - i,
    {
        let c = to_char(bytes[i]);
        push_char(&mut s, c);
        i = i + 1;
        assert(decode_seq(bytes@.take(i as int)) =~= decode_seq(bytes@.take(i - 1)).push(c));
    }
    assert(bytes@.take(i as int) =~= bytes@);
    s
}

/// Encode characters as CP437, writing [`REPLACEMENT`] for any character outside the set.
pub fn encode_lossy_chars(chars: &[char]) -> (out: Vec<u8>)
    ensures
        out@ == encode_lossy_seq(chars@),
{
    let mut out: Vec<u8> = Vec::new();
    let mut i: usize = 0;
    while i < chars.len()
        invariant
            i <= chars.len(),
            out@ == encode_lossy_seq(chars@.take(i as int)),
        decreases chars.len() - i,
    {
        let b = match to_byte(chars[i]) {
            Some(b) => b,
            None => REPLACEMENT,
        };
        out.push(b);
        i = i + 1;
        assert(encode_lossy_seq(chars@.take(i as int)) =~= encode_lossy_seq(chars@.take(i - 1)).push(b));
    }
    assert(chars@.take(i as int) =~= chars@);
    out
}

/// Encode text as CP437, writing [`REPLACEMENT`] for any character outside the set.
pub fn encode_lossy(s: &str) -> (out: Vec<u8>)
    ensures
        out@ == encode_lossy_seq(s@),
{
    let chars = crate::textbuf::chars_of(s);
    encode_lossy_chars(chars.as_slice())
}

/// A character of the set comes back from its byte; upper-half characters have upper-half
/// bytes.
#[verifier::rlimit(40)]
pub proof fn lemma_byte_char(c: char)
    ensures
        cp437_byte(c) matches Some(b) ==> cp437_char(b) == c && ((c as u32) < 0x80 <==> b < 0x80),
{
    if (c as u32) < 0x80 {
        assert((c as u8) as char == c);
    }
}

} // verus!
