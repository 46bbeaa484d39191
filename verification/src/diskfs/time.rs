//! MS-DOS-style packed directory timestamps.
//!
//! time = `hour<<11 | minute<<5 | second/2`, date = `year<<9 | month<<5 | day`, both
//! little-endian words. The PC-1600 clock has no year; the ROM always writes 6 in the
//! year field (see [`NEW_FILE_YEAR_FIELD`]).

use vstd::prelude::*;

use crate::textbuf::{padded_decimal, push_char, push_padded_decimal};

verus! {

/// Year field of a new file: the PC-1600 ROM writes 6 whatever the date.
pub const NEW_FILE_YEAR_FIELD: u8 = 6;

#[derive(Clone, Copy, Debug, Default, PartialEq, Eq, Structural)]
pub struct DosTimestamp {
    pub year_field: u8,
    pub month: u8,
    pub day: u8,
    pub hour: u8,
    pub minute: u8,
    pub second: u8,
}

/// The packed `(time, date)` words of a timestamp (fields masked to their widths).
pub open spec fn pack_spec(ts: DosTimestamp) -> (u16, u16) {
    (
        ((ts.hour % 32) as int * 2048 + (ts.minute % 64) as int * 32 + ((ts.second / 2) % 32) as int) as u16,
        ((ts.year_field % 128) as int * 512 + (ts.month % 16) as int * 32 + (ts.day % 32) as int) as u16,
    )
}

pub open spec fn unpack_spec(time: u16, date: u16) -> DosTimestamp {
    DosTimestamp {
        year_field: (date / 512) as u8,
        month: ((date / 32) % 16) as u8,
        day: (date % 32) as u8,
        hour: (time / 2048) as u8,
        minute: ((time / 32) % 64) as u8,
        second: ((time % 32) * 2) as u8,
    }
}

/// The timestamp of a new file written `secs` seconds after the Unix epoch (UTC).
#[verifier::opaque]
pub open spec fn from_unix_spec(secs: int) -> DosTimestamp {
    let c = crate::floppy_image::civil_spec(secs / 86_400);
    let rem = secs % 86_400;
    DosTimestamp {
        year_field: NEW_FILE_YEAR_FIELD,
        month: c.1 as u8,
        day: c.2 as u8,
        hour: (rem / 3600) as u8,
        minute: (rem % 3600 / 60) as u8,
        second: (rem % 60) as u8,
    }
}

/// Every field within its packed width (and an even second count).
pub open spec fn packable(ts: DosTimestamp) -> bool {
    &&& ts.year_field < 128
    &&& ts.month < 16
    &&& ts.day < 32
    &&& ts.hour < 32
    &&& ts.minute < 64
    &&& ts.second < 64
    &&& ts.second % 2 == 0
}

impl DosTimestamp {
    /// A timestamp for a new file, with the ROM's year field.
    pub fn new(month: u8, day: u8, hour: u8, minute: u8, second: u8) -> (ts: DosTimestamp)
        ensures
            ts == (DosTimestamp { year_field: NEW_FILE_YEAR_FIELD, month, day, hour, minute, second }),
    {
        DosTimestamp { year_field: NEW_FILE_YEAR_FIELD, month, day, hour, minute, second }
    }

    /// `(time, date)` words.
    pub fn pack(self) -> (r: (u16, u16))
        ensures
            r == pack_spec(self),
    {
        let time: u16 = ((self.hour % 32) as u16) * 2048 + ((self.minute % 64) as u16) * 32 + ((
        self.second / 2) % 32) as u16;
        let date: u16 = ((self.year_field % 128) as u16) * 512 + ((self.month % 16) as u16) * 32 + (
        self.day % 32) as u16;
        (time, date)
    }

    pub fn unpack(time: u16, date: u16) -> (ts: DosTimestamp)
        ensures
            ts == unpack_spec(time, date),
    {
        DosTimestamp {
            year_field: (date / 512) as u8,
            month: ((date / 32) % 16) as u8,
            day: (date % 32) as u8,
            hour: (time / 2048) as u8,
            minute: ((time / 32) % 64) as u8,
            second: ((time % 32) * 2) as u8,
        }
    }

    /// The timestamp of a new file written `secs` seconds after the Unix epoch (UTC).
    pub fn from_unix_secs(secs: i64) -> (ts: DosTimestamp)
        ensures
            ts == from_unix_spec(secs as int),
    {
        let (days, rem) = crate::floppy_image::div_rem_euclid(secs, 86_400);
        proof {
            vstd::arithmetic::div_mod::lemma_fundamental_div_mod(secs as int, 86_400);
        }
        assert(days <= 200_000_000_000_000);
        let (_, month, day) = crate::floppy_image::civil_from_days(days);
        proof {
            reveal(from_unix_spec);
        }
        DosTimestamp::new(month as u8, day as u8, (rem / 3600) as u8, (rem % 3600 / 60) as u8, (rem % 60) as u8)
    }

    /// The current UTC time (for embedders without a clock of their own).
    pub fn now_utc() -> (ts: DosTimestamp)
        ensures
            exists|secs: i64| ts == from_unix_spec(secs as int),
    {
        DosTimestamp::from_unix_secs(crate::floppy_image::unix_now())
    }

    /// `MM-DD HH:MM:SS` (no year: the PC-1600 clock has none).
    pub fn to_text(&self) -> (s: String)
        ensures
            s@ == padded_decimal(self.month as nat, 2) + seq!['-'] + padded_decimal(self.day as nat, 2)
                + seq![' '] + padded_decimal(self.hour as nat, 2) + seq![':'] + padded_decimal(
                self.minute as nat,
                2,
            ) + seq![':'] + padded_decimal(self.second as nat, 2),
    {
        let mut s = String::new();
        push_padded_decimal(&mut s, self.month as u64, 2);
        push_char(&mut s, '-');
        push_padded_decimal(&mut s, self.day as u64, 2);
        push_char(&mut s, ' ');
        push_padded_decimal(&mut s, self.hour as u64, 2);
        push_char(&mut s, ':');
        push_padded_decimal(&mut s, self.minute as u64, 2);
        push_char(&mut s, ':');
        push_padded_decimal(&mut s, self.second as u64, 2);
        s
    }
}

/// Unpacking the words of a timestamp whose fields fit their widths gives it back.
#[verifier::spinoff_prover]
#[verifier::rlimit(40)]
pub proof fn lemma_unpack_pack(ts: DosTimestamp)
    requires
        packable(ts),
    ensures
        unpack_spec(pack_spec(ts).0, pack_spec(ts).1) == ts,
{
}

/// Packing an unpacked pair of words gives the same words: every `(time, date)` pair is
/// the packing of exactly one timestamp.
#[verifier::spinoff_prover]
#[verifier::rlimit(40)]
pub proof fn lemma_pack_unpack(time: u16, date: u16)
    ensures
        pack_spec(unpack_spec(time, date)) == (time, date),
{
}

} // verus!
