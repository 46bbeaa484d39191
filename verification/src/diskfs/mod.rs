//! The PC-1600 FAT-style filesystem on one CE-1600F floppy side.
//!
//! Layout of a side (512-byte logical sectors):
//!
//! | Sector | Content |
//! |---|---|
//! | 0 | boot sector — never checked |
//! | 1 | FAT: byte 0 = media id `F2`, bytes 1..=122 = clusters 1..=122 |
//! | 2 | FAT copy — kept identical to the FAT; never read |
//! | 3–5 | directory, 48 × 32-byte entries |
//! | 6–127 | data: cluster *c* is sector *c* + 5 |
//!
//! FAT entry `00` = free, `01..=7A` = next cluster, `F0` = last cluster. Only FAT bytes
//! 0..=122 are written, to both copies; the rest of each sector is preserved.
//!
//! A new file gets attribute `20`, reserved bytes zero, year field 6, the first free
//! directory slot (a deleted one is reused) and the first free clusters.

pub mod name;
pub mod time;
pub mod update;

pub use name::{FileName, Pattern};
pub use time::{DosTimestamp, NEW_FILE_YEAR_FIELD};

use vstd::prelude::*;

use crate::textbuf;
use update::{
    chunk, clusters_needed, delete_spec, entry_bytes, free_below, free_chain, increasing_clusters,
    next_of, reports, set_fat_spec, splice, store, write_spec, Fault,
};

verus! {

/// Directory-entry byte 0 of a deleted entry.
pub const DELETED: u8 = 0xE5;
/// Attribute of a newly written file (bit 5 is always set; nothing else).
pub const NEW_FILE_ATTR: u8 = 0x20;
pub const ATTR_PROTECTED: u8 = 0x01;
pub const ATTR_UNKNOWN_I: u8 = 0x02;
pub const ATTR_HIDDEN: u8 = 0x04;
pub const DIR_ENTRY_LEN: usize = 32;
pub const SECTOR_SIZE: usize = 512;
pub const VOLUME_SIZE: usize = 65536;
pub const FAT_OFFSET: usize = 512;
pub const FAT_COPY_OFFSET: usize = 1024;
pub const DIR_OFFSET: usize = 1536;
pub const DIR_ENTRIES: usize = 48;
pub const MAX_CLUSTER: u8 = 122;
pub const END_OF_CHAIN: u8 = 0xF0;
pub const MEDIA_ID: u8 = 0xF2;

/// Volume geometry. Only the CE-1600F floppy side is implemented.
#[derive(Clone, Copy, Debug, PartialEq, Eq, Structural)]
pub struct Geometry {
    pub sector_size: usize,
    pub total_sectors: usize,
    pub media_id: u8,
    pub fat_sector: usize,
    /// Sector of the FAT copy, kept identical to the FAT on every write.
    pub fat_copy_sector: Option<usize>,
    pub dir_sector: usize,
    pub dir_entries: usize,
    pub data_sector: usize,
    /// Highest valid cluster number (clusters are numbered from 1).
    pub max_cluster: u8,
    /// FAT value marking the last cluster of a file.
    pub end_of_chain: u8,
}

pub open spec fn ce1600f_spec() -> Geometry {
    Geometry {
        sector_size: 512,
        total_sectors: 128,
        media_id: 0xF2,
        fat_sector: 1,
        fat_copy_sector: Some(2),
        dir_sector: 3,
        dir_entries: 48,
        data_sector: 6,
        max_cluster: 122,
        end_of_chain: 0xF0,
    }
}

impl Geometry {
    /// A CE-1600F side: media id F2, clusters 1..=122.
    pub fn ce1600f() -> (g: Geometry)
        ensures
            g == ce1600f_spec(),
    {
        Geometry {
            sector_size: 512,
            total_sectors: 128,
            media_id: 0xF2,
            fat_sector: 1,
            fat_copy_sector: Some(2),
            dir_sector: 3,
            dir_entries: 48,
            data_sector: 6,
            max_cluster: 122,
            end_of_chain: 0xF0,
        }
    }

    pub fn volume_size(&self) -> (r: usize)
        requires
            self.sector_size * self.total_sectors <= usize::MAX,
        ensures
            r == self.sector_size * self.total_sectors,
    {
        self.sector_size * self.total_sectors
    }

    pub fn cluster_offset(&self, cluster: u8) -> (r: usize)
        requires
            *self == ce1600f_spec(),
        ensures
            r == cluster_off(cluster as int),
    {
        (self.data_sector + cluster as usize - 1) * self.sector_size
    }

    pub fn fat_offset(&self) -> (r: usize)
        requires
            *self == ce1600f_spec(),
        ensures
            r == FAT_OFFSET,
    {
        self.fat_sector * self.sector_size
    }

    pub fn dir_offset(&self, slot: usize) -> (r: usize)
        requires
            *self == ce1600f_spec(),
            slot < 2000,
        ensures
            r == dir_off(slot as int),
    {
        self.dir_sector * self.sector_size + slot * DIR_ENTRY_LEN
    }
}

pub open spec fn cluster_off(c: int) -> int {
    (c + 5) * 512
}

pub open spec fn dir_off(slot: int) -> int {
    1536 + slot * 32
}

#[derive(Clone, Debug, PartialEq, Eq)]
pub enum DiskError {
    /// The FAT does not start with the expected media id (e.g. a blank side).
    NotFormatted,
    NotFound(String),
    Exists(String),
    Protected(String),
    DiskFull { needed: usize, free: usize },
    DirectoryFull,
    BadName(String),
    Corrupt(String),
}

impl DiskError {
    /// The error as a sentence.
    pub open spec fn message_text(self) -> Seq<char> {
        match self {
            DiskError::NotFormatted => "side is not formatted (no CE-1600F FAT)"@,
            DiskError::NotFound(n) => "file not found: "@ + n@,
            DiskError::Exists(n) => n@ + " already exists (use --force to replace it)"@,
            DiskError::Protected(n) => n@ + " is write-protected (use --force)"@,
            DiskError::DiskFull { needed, free } => "disk full: need "@ + crate::textbuf::decimal(needed as nat)
                + " bytes, "@ + crate::textbuf::decimal(free as nat) + " bytes free"@,
            DiskError::DirectoryFull => "directory full (48 files per side)"@,
            DiskError::BadName(n) => "invalid file name "@ + n@,
            DiskError::Corrupt(why) => "filesystem is corrupt: "@ + why@,
        }
    }

    pub fn message(&self) -> (s: String)
        ensures
            s@ == self.message_text(),
    {
        let mut s = String::new();
        match self {
            DiskError::NotFormatted => {
                textbuf::push_str(&mut s, "side is not formatted (no CE-1600F FAT)");
            },
            DiskError::NotFound(n) => {
                textbuf::push_str(&mut s, "file not found: ");
                textbuf::push_str(&mut s, n.as_str());
            },
            DiskError::Exists(n) => {
                textbuf::push_str(&mut s, n.as_str());
                textbuf::push_str(&mut s, " already exists (use --force to replace it)");
            },
            DiskError::Protected(n) => {
                textbuf::push_str(&mut s, n.as_str());
                textbuf::push_str(&mut s, " is write-protected (use --force)");
            },
            DiskError::DiskFull { needed, free } => {
                textbuf::push_str(&mut s, "disk full: need ");
                textbuf::push_decimal(&mut s, *needed as u64);
                textbuf::push_str(&mut s, " bytes, ");
                textbuf::push_decimal(&mut s, *free as u64);
                textbuf::push_str(&mut s, " bytes free");
            },
            DiskError::DirectoryFull => {
                textbuf::push_str(&mut s, "directory full (48 files per side)");
            },
            DiskError::BadName(n) => {
                textbuf::push_str(&mut s, "invalid file name ");
                textbuf::push_str(&mut s, n.as_str());
            },
            DiskError::Corrupt(why) => {
                textbuf::push_str(&mut s, "filesystem is corrupt: ");
                textbuf::push_str(&mut s, why.as_str());
            },
        }
        s
    }
}

/// The content of a [`DirEntry`].
pub struct EntryView {
    pub slot: int,
    pub name: Seq<u8>,
    pub attr: u8,
    pub time: u16,
    pub date: u16,
    pub start_cluster: u8,
    pub size: u32,
}

/// One used directory entry.
#[derive(Clone, Debug, PartialEq, Eq)]
pub struct DirEntry {
    /// Directory slot (0-based).
    pub slot: usize,
    pub name: FileName,
    pub attr: u8,
    pub time: u16,
    pub date: u16,
    pub start_cluster: u8,
    /// File size in bytes, including a 16-byte header if the file has one.
    pub size: u32,
}

impl View for DirEntry {
    type V = EntryView;

    open spec fn view(&self) -> EntryView {
        EntryView {
            slot: self.slot as int,
            name: self.name@,
            attr: self.attr,
            time: self.time,
            date: self.date,
            start_cluster: self.start_cluster,
            size: self.size,
        }
    }
}

impl DirEntry {
    /// A field-by-field copy.
    pub fn copy(&self) -> (r: DirEntry)
        ensures
            r@ == self@,
    {
        DirEntry {
            slot: self.slot,
            name: self.name,
            attr: self.attr,
            time: self.time,
            date: self.date,
            start_cluster: self.start_cluster,
            size: self.size,
        }
    }

    pub fn is_protected(&self) -> (r: bool)
        ensures
            r == (self.attr & ATTR_PROTECTED != 0),
    {
        self.attr & ATTR_PROTECTED != 0
    }

    pub fn is_hidden(&self) -> (r: bool)
        ensures
            r == (self.attr & ATTR_HIDDEN != 0),
    {
        self.attr & ATTR_HIDDEN != 0
    }

    pub fn timestamp(&self) -> (ts: DosTimestamp)
        ensures
            ts == time::unpack_spec(self.time, self.date),
    {
        DosTimestamp::unpack(self.time, self.date)
    }

    /// `P`, `I`, `H` for the protect / unknown / hidden attribute bits, `-` when clear.
    pub fn attr_letters(&self) -> (s: String)
        ensures
            s@ == seq![
                if self.attr & ATTR_PROTECTED != 0 { 'P' } else { '-' },
                if self.attr & ATTR_UNKNOWN_I != 0 { 'I' } else { '-' },
                if self.attr & ATTR_HIDDEN != 0 { 'H' } else { '-' },
            ],
    {
        let mut s = String::new();
        textbuf::push_char(&mut s, if self.attr & ATTR_PROTECTED != 0 { 'P' } else { '-' });
        textbuf::push_char(&mut s, if self.attr & ATTR_UNKNOWN_I != 0 { 'I' } else { '-' });
        textbuf::push_char(&mut s, if self.attr & ATTR_HIDDEN != 0 { 'H' } else { '-' });
        s
    }
}

// ── the on-disk structures, as functions of the side's bytes ────────────

pub open spec fn fat(d: Seq<u8>, c: int) -> u8 {
    d[512 + c]
}

pub open spec fn le16(d: Seq<u8>, at: int) -> u16 {
    (d[at] + d[at + 1] * 256) as u16
}

pub open spec fn le32(d: Seq<u8>, at: int) -> u32 {
    (d[at] + d[at + 1] * 256 + d[at + 2] * 65536 + d[at + 3] * 16777216) as u32
}

/// The directory entry stored in `slot`.
pub open spec fn entry_at(d: Seq<u8>, slot: int) -> EntryView {
    let o = dir_off(slot);
    EntryView {
        slot,
        name: d.subrange(o, o + 11),
        attr: d[o + 0x0B],
        time: le16(d, o + 0x16),
        date: le16(d, o + 0x18),
        start_cluster: d[o + 0x1A],
        size: le32(d, o + 0x1C),
    }
}

/// Used entries from `slot` on: the scan stops at the first never-used entry (first byte
/// `00`); deleted entries (`E5`) are skipped.
pub open spec fn list_from(d: Seq<u8>, slot: int) -> Seq<EntryView>
    decreases 48 - slot,
{
    if slot < 0 || slot >= 48 {
        Seq::empty()
    } else if d[dir_off(slot)] == 0x00 {
        Seq::empty()
    } else if d[dir_off(slot)] == DELETED {
        list_from(d, slot + 1)
    } else {
        seq![entry_at(d, slot)] + list_from(d, slot + 1)
    }
}

pub open spec fn list_spec(d: Seq<u8>) -> Seq<EntryView> {
    list_from(d, 0)
}

/// The first entry of `es` named `name`.
pub open spec fn find_in(es: Seq<EntryView>, name: Seq<u8>) -> Option<EntryView>
    decreases es.len(),
{
    if es.len() == 0 {
        None
    } else if es[0].name == name {
        Some(es[0])
    } else {
        find_in(es.drop_first(), name)
    }
}

pub open spec fn find_spec(d: Seq<u8>, name: Seq<u8>) -> Option<EntryView> {
    find_in(list_spec(d), name)
}

pub open spec fn glob_spec(d: Seq<u8>, p: Seq<u8>) -> Seq<EntryView> {
    list_spec(d).filter(|e: EntryView| name::pattern_matches(p, e.name))
}

/// How a cluster chain is broken.
pub enum ChainFault {
    OutOfRange(u8),
    Loops(u8),
    RunsIntoFree,
    TooShort(nat),
}

/// Following the FAT from cluster `c`, after the clusters `acc`.
pub open spec fn chain_from(d: Seq<u8>, c: u8, acc: Seq<u8>) -> Result<Seq<u8>, ChainFault>
    decreases 123 - acc.len(),
{
    if c == 0 || c > 122 {
        Err(ChainFault::OutOfRange(c))
    } else if acc.contains(c) || acc.len() >= 122 {
        Err(ChainFault::Loops(c))
    } else {
        let next = fat(d, c as int);
        if next == END_OF_CHAIN {
            Ok(acc.push(c))
        } else if next == 0 {
            Err(ChainFault::RunsIntoFree)
        } else {
            chain_from(d, next, acc.push(c))
        }
    }
}

/// Clusters needed for `len` bytes.
pub open spec fn clusters_for(len: int) -> int {
    (len + 511) / 512
}

/// The cluster chain of `e`, validated: no loops, no free or out-of-range links, long
/// enough for the file's size. An empty file with start cluster 0 has no chain.
pub open spec fn chain_spec(d: Seq<u8>, e: EntryView) -> Result<Seq<u8>, ChainFault> {
    if e.size == 0 && e.start_cluster == 0 {
        Ok(Seq::empty())
    } else {
        match chain_from(d, e.start_cluster, Seq::empty()) {
            Ok(ch) => if ch.len() < clusters_for(e.size as int) {
                Err(ChainFault::TooShort(ch.len()))
            } else {
                Ok(ch)
            },
            Err(f) => Err(f),
        }
    }
}

/// How a broken chain of the file `e` is reported: its name, then what is wrong.
pub open spec fn chain_report(e: EntryView, f: ChainFault) -> Seq<char> {
    name::name_text(e.name) + match f {
        ChainFault::OutOfRange(c) => ": cluster "@ + seq!['0', 'x'] + textbuf::padded_hex(c as nat, 2)
            + " out of range"@,
        ChainFault::Loops(c) => ": cluster chain loops at "@ + seq!['0', 'x'] + textbuf::padded_hex(c as nat, 2),
        ChainFault::RunsIntoFree => ": chain runs into free cluster"@,
        ChainFault::TooShort(n) => ": "@ + textbuf::decimal(n) + " clusters for "@ + textbuf::decimal(e.size as nat)
            + " bytes"@,
    }
}

/// How a buffer of the wrong size for a side is reported.
pub open spec fn size_report(len: nat) -> Seq<char> {
    "side is "@ + textbuf::decimal(len) + " bytes, expected "@ + textbuf::decimal(65536)
}

/// `err` is the `Corrupt` error that reports the text `t`.
pub open spec fn corrupt_with(err: DiskError, t: Seq<char>) -> bool {
    err matches DiskError::Corrupt(m) && m@ == t
}

/// `err` reports the broken chain `r` of the file `e`.
pub open spec fn chain_error(err: DiskError, e: EntryView, r: Result<Seq<u8>, ChainFault>) -> bool {
    match r {
        Ok(_) => false,
        Err(f) => corrupt_with(err, chain_report(e, f)),
    }
}

pub open spec fn sector(d: Seq<u8>, c: u8) -> Seq<u8> {
    d.subrange(cluster_off(c as int), cluster_off(c as int) + 512)
}

/// The sectors of the clusters `ch`, in order.
pub open spec fn sectors(d: Seq<u8>, ch: Seq<u8>) -> Seq<u8>
    decreases ch.len(),
{
    if ch.len() == 0 {
        Seq::empty()
    } else {
        sectors(d, ch.drop_last()) + sector(d, ch.last())
    }
}

/// The bytes of file `e`: its chain's sectors cut to its size.
pub open spec fn read_spec(d: Seq<u8>, e: EntryView) -> Result<Seq<u8>, ChainFault> {
    match chain_spec(d, e) {
        Ok(ch) => Ok(sectors(d, ch).take(e.size as int)),
        Err(f) => Err(f),
    }
}

/// Free clusters among `1..=n`.
pub open spec fn free_count(d: Seq<u8>, n: int) -> nat
    decreases n,
{
    if n <= 0 {
        0
    } else {
        free_count(d, n - 1) + if fat(d, n) == 0 {
            1nat
        } else {
            0nat
        }
    }
}

/// The first directory slot at or after `slot` that is unused or deleted.
pub open spec fn free_slot_from(d: Seq<u8>, slot: int) -> Option<int>
    decreases 48 - slot,
{
    if slot < 0 || slot >= 48 {
        None
    } else if d[dir_off(slot)] == 0x00 || d[dir_off(slot)] == DELETED {
        Some(slot)
    } else {
        free_slot_from(d, slot + 1)
    }
}

/// A formatted CE-1600F side.
pub open spec fn formatted(d: Seq<u8>) -> bool {
    d.len() == 65536 && d[512] == MEDIA_ID
}

/// The contents of a list of entries.
pub open spec fn views(es: Seq<DirEntry>) -> Seq<EntryView> {
    es.map_values(|e: DirEntry| e@)
}

/// A mounted volume over a byte buffer holding exactly one side.
pub struct Volume {
    geo: Geometry,
    buf: Vec<u8>,
}

impl View for Volume {
    type V = Seq<u8>;

    closed spec fn view(&self) -> Seq<u8> {
        self.buf@
    }
}

impl Volume {
    pub closed spec fn wf(&self) -> bool {
        self.geo == ce1600f_spec() && formatted(self.buf@)
    }

    /// A mounted side is one formatted side.
    pub proof fn lemma_formatted(&self)
        requires
            self.wf(),
        ensures
            formatted(self@),
    {
    }

    /// Mount a CE-1600F side. Fails with [`DiskError::NotFormatted`] unless FAT byte 0 is
    /// the media id `F2`, and with `Corrupt` unless the buffer is exactly one side.
    pub fn open_floppy_side(buf: Vec<u8>) -> (r: Result<Volume, DiskError>)
        ensures
            match r {
                Ok(v) => v.wf() && v@ == buf@,
                Err(e) => !formatted(buf@) && (buf@.len() != 65536 ==> corrupt_with(e, size_report(buf@.len())))
                    && (buf@.len() == 65536 ==> e is NotFormatted),
            },
    {
        Self::open(buf, Geometry::ce1600f())
    }

    fn open(buf: Vec<u8>, geo: Geometry) -> (r: Result<Volume, DiskError>)
        requires
            geo == ce1600f_spec(),
        ensures
            match r {
                Ok(v) => v.wf() && v@ == buf@,
                Err(e) => !formatted(buf@) && (buf@.len() != 65536 ==> corrupt_with(e, size_report(buf@.len())))
                    && (buf@.len() == 65536 ==> e is NotFormatted),
            },
    {
        let size = geo.volume_size();
        if buf.len() != size {
            let mut m = String::new();
            textbuf::push_str(&mut m, "side is ");
            textbuf::push_decimal(&mut m, buf.len() as u64);
            textbuf::push_str(&mut m, " bytes, expected ");
            textbuf::push_decimal(&mut m, size as u64);
            assert(m@ =~= size_report(buf@.len()));
            return Err(DiskError::Corrupt(m));
        }
        if buf[geo.fat_offset()] != geo.media_id {
            return Err(DiskError::NotFormatted);
        }
        Ok(Volume { geo, buf })
    }

    pub fn geometry(&self) -> (g: &Geometry)
        requires
            self.wf(),
        ensures
            *g == ce1600f_spec(),
    {
        &self.geo
    }

    pub fn into_inner(self) -> (b: Vec<u8>)
        ensures
            b@ == self@,
    {
        self.buf
    }

    pub fn bytes(&self) -> (b: &[u8])
        ensures
            b@ == self@,
    {
        self.buf.as_slice()
    }

    pub fn fat(&self, cluster: u8) -> (r: u8)
        requires
            self.wf(),
        ensures
            r == fat(self@, cluster as int),
    {
        self.buf[FAT_OFFSET + cluster as usize]
    }

    fn entry(&self, slot: usize) -> (e: DirEntry)
        requires
            self.wf(),
            slot < 48,
        ensures
            e@ == entry_at(self@, slot as int),
    {
        let o = self.geo.dir_offset(slot);
        let name = FileName::from_raw(self.raw_entry(slot));
        assert(self.raw_entry_spec(slot).take(11) =~= self@.subrange(o as int, o + 11));
        DirEntry {
            slot,
            name,
            attr: self.buf[o + 0x0B],
            time: (self.buf[o + 0x16] as u16) + (self.buf[o + 0x17] as u16) * 256,
            date: (self.buf[o + 0x18] as u16) + (self.buf[o + 0x19] as u16) * 256,
            start_cluster: self.buf[o + 0x1A],
            size: (self.buf[o + 0x1C] as u32) + (self.buf[o + 0x1D] as u32) * 256 + (self.buf[o
                + 0x1E] as u32) * 65536 + (self.buf[o + 0x1F] as u32) * 16777216,
        }
    }

    pub closed spec fn raw_entry_spec(&self, slot: usize) -> Seq<u8> {
        self@.subrange(dir_off(slot as int), dir_off(slot as int) + 32)
    }

    /// The 32 bytes of directory slot `slot`.
    pub fn raw_entry(&self, slot: usize) -> (r: &[u8])
        requires
            self.wf(),
            slot < 48,
        ensures
            r@ == self@.subrange(dir_off(slot as int), dir_off(slot as int) + 32),
            r@ == self.raw_entry_spec(slot),
    {
        let off = self.geo.dir_offset(slot);
        vstd::slice::slice_subrange(self.buf.as_slice(), off, off + DIR_ENTRY_LEN)
    }

    /// Used entries in directory order. The scan stops at the first never-used entry
    /// (first byte `00`); deleted entries (`E5`) are skipped.
    pub fn list(&self) -> (r: Vec<DirEntry>)
        requires
            self.wf(),
        ensures
            views(r@) == list_spec(self@),
    {
        let mut out: Vec<DirEntry> = Vec::new();
        let mut slot: usize = 0;
        while slot < 48
            invariant
                self.wf(),
                slot <= 48,
                views(out@) + list_from(self@, slot as int) == list_spec(
                    self@,
                ),
            decreases 48 - slot,
        {
            let b0 = self.buf[self.geo.dir_offset(slot)];
            if b0 == 0x00 {
                assert(list_from(self@, slot as int) =~= Seq::<EntryView>::empty());
                assert(views(out@) + Seq::<EntryView>::empty() =~= views(out@));
                return out;
            }
            if b0 != DELETED {
                let e = self.entry(slot);
                let ghost before = views(out@);
                out.push(e);
                assert(views(out@) =~= before.push(e@));
                assert(before + list_from(self@, slot as int) =~= before.push(e@) + list_from(self@, slot + 1));
            }
            slot = slot + 1;
        }
        assert(views(out@) + Seq::<EntryView>::empty() =~= views(out@));
        out
    }

    pub fn find(&self, name: &FileName) -> (r: Option<DirEntry>)
        requires
            self.wf(),
        ensures
            match r {
                Some(e) => find_spec(self@, name@) == Some(e@),
                None => find_spec(self@, name@) is None,
            },
    {
        let list = self.list();
        let ghost es = views(list@);
        let mut i: usize = 0;
        assert(es.skip(0) =~= es);
        while i < list.len()
            invariant
                i <= list@.len(),
                es == views(list@),
                es == list_spec(self@),
                find_in(es, name@) == find_in(es.skip(i as int), name@),
            decreases list.len() - i,
        {
            assert(es.skip(i as int)[0] == list@[i as int]@);
            if list[i].name.same(name) {
                assert(es.skip(i as int).len() > 0);
                assert(find_in(es.skip(i as int), name@) == Some(es.skip(i as int)[0]));
                let r = list[i].copy();
                assert(r@ == es.skip(i as int)[0]);
                assert(find_spec(self@, name@) == Some(r@));
                return Some(r);
            }
            assert(es.skip(i as int).drop_first() =~= es.skip(i + 1));
            i = i + 1;
        }
        None
    }
}


/// The entries of `es` that `p` matches, in order.
pub open spec fn matching(es: Seq<EntryView>, p: Seq<u8>) -> Seq<EntryView>
    decreases es.len(),
{
    if es.len() == 0 {
        Seq::empty()
    } else {
        (if name::pattern_matches(p, es[0].name) {
            seq![es[0]]
        } else {
            Seq::empty()
        }) + matching(es.drop_first(), p)
    }
}

fn contains_cluster(ch: &Vec<u8>, c: u8) -> (r: bool)
    ensures
        r == ch@.contains(c),
{
    let mut i: usize = 0;
    while i < ch.len()
        invariant
            i <= ch@.len(),
            forall|j: int| 0 <= j < i ==> ch@[j] != c,
        decreases ch.len() - i,
    {
        if ch[i] == c {
            assert(ch@[i as int] == c);
            return true;
        }
        i = i + 1;
    }
    false
}

/// `0xNN` (`{:#04X}`).
fn push_cluster_hex(s: &mut String, c: u8)
    ensures
        final(s)@ == old(s)@ + seq!['0', 'x'] + textbuf::padded_hex(c as nat, 2),
{
    textbuf::push_char(s, '0');
    textbuf::push_char(s, 'x');
    textbuf::push_padded_hex(s, c as u64, 2);
}

impl Volume {
    pub fn glob(&self, pattern: &Pattern) -> (r: Vec<DirEntry>)
        requires
            self.wf(),
        ensures
            views(r@) == matching(list_spec(self@), pattern@),
    {
        let list = self.list();
        let ghost es = views(list@);
        let mut out: Vec<DirEntry> = Vec::new();
        let mut i: usize = 0;
        assert(es.skip(0) =~= es);
        while i < list.len()
            invariant
                i <= list@.len(),
                es == views(list@),
                es == list_spec(self@),
                views(out@) + matching(es.skip(i as int), pattern@) == matching(es, pattern@),
            decreases list.len() - i,
        {
            assert(es.skip(i as int)[0] == list@[i as int]@);
            assert(es.skip(i as int).drop_first() =~= es.skip(i + 1));
            let ghost before = views(out@);
            if pattern.matches(&list[i].name) {
                out.push(list[i].copy());
                assert(views(out@) =~= before.push(list@[i as int]@));
            }
            assert(views(out@) + matching(es.skip(i + 1), pattern@) =~= before + matching(
                es.skip(i as int),
                pattern@,
            ));
            i = i + 1;
        }
        assert(views(out@) + Seq::<EntryView>::empty() =~= views(out@));
        out
    }

    /// The cluster chain of `entry`, validated (no loops, no free or out-of-range links,
    /// long enough for the file's size).
    pub fn chain(&self, entry: &DirEntry) -> (r: Result<Vec<u8>, DiskError>)
        requires
            self.wf(),
        ensures
            match r {
                Ok(v) => chain_spec(self@, entry@) == Ok::<Seq<u8>, ChainFault>(v@),
                Err(e) => chain_error(e, entry@, chain_spec(self@, entry@)),
            },
    {
        let mut chain: Vec<u8> = Vec::new();
        if entry.size == 0 && entry.start_cluster == 0 {
            return Ok(chain);
        }
        let mut c = entry.start_cluster;
        loop
            invariant_except_break
                self.wf(),
                !(entry.size == 0 && entry.start_cluster == 0),
                chain@.len() <= 122,
                chain_from(self@, entry.start_cluster, Seq::empty()) == chain_from(self@, c, chain@),
            ensures
                chain_from(self@, entry.start_cluster, Seq::empty()) == Ok::<Seq<u8>, ChainFault>(chain@),
            decreases 122 - chain@.len(),
        {
            if c == 0 || c > MAX_CLUSTER {
                let mut m = entry.name.to_text();
                textbuf::push_str(&mut m, ": cluster ");
                push_cluster_hex(&mut m, c);
                textbuf::push_str(&mut m, " out of range");
                assert(m@ =~= chain_report(entry@, ChainFault::OutOfRange(c)));
                return Err(DiskError::Corrupt(m));
            }
            if contains_cluster(&chain, c) || chain.len() >= 122 {
                let mut m = entry.name.to_text();
                textbuf::push_str(&mut m, ": cluster chain loops at ");
                push_cluster_hex(&mut m, c);
                assert(chain_from(self@, c, chain@) == Err::<Seq<u8>, ChainFault>(ChainFault::Loops(c)));
                assert(m@ =~= chain_report(entry@, ChainFault::Loops(c)));
                return Err(DiskError::Corrupt(m));
            }
            let ghost acc = chain@;
            chain.push(c);
            let next = self.fat(c);
            if next == END_OF_CHAIN {
                break;
            }
            if next == 0 {
                let mut m = entry.name.to_text();
                textbuf::push_str(&mut m, ": chain runs into free cluster");
                assert(chain_from(self@, c, acc) == Err::<Seq<u8>, ChainFault>(ChainFault::RunsIntoFree));
                assert(m@ =~= chain_report(entry@, ChainFault::RunsIntoFree));
                return Err(DiskError::Corrupt(m));
            }
            c = next;
        }
        let size = entry.size as usize;
        let needed = size / 512 + if size % 512 != 0 {
            1
        } else {
            0
        };
        assert(needed == clusters_for(entry.size as int));
        if chain.len() < needed {
            let mut m = entry.name.to_text();
            textbuf::push_str(&mut m, ": ");
            textbuf::push_decimal(&mut m, chain.len() as u64);
            textbuf::push_str(&mut m, " clusters for ");
            textbuf::push_decimal(&mut m, entry.size as u64);
            textbuf::push_str(&mut m, " bytes");
            assert(chain_spec(self@, entry@) == Err::<Seq<u8>, ChainFault>(ChainFault::TooShort(chain@.len())));
            assert(m@ =~= chain_report(entry@, ChainFault::TooShort(chain@.len())));
            return Err(DiskError::Corrupt(m));
        }
        Ok(chain)
    }

    /// The file's bytes, exactly `entry.size` of them.
    pub fn read(&self, entry: &DirEntry) -> (r: Result<Vec<u8>, DiskError>)
        requires
            self.wf(),
        ensures
            match r {
                Ok(v) => read_spec(self@, entry@) == Ok::<Seq<u8>, ChainFault>(v@),
                Err(e) => read_spec(self@, entry@) is Err && chain_error(e, entry@, chain_spec(self@, entry@)),
            },
    {
        let chain = self.chain(entry)?;
        let mut out: Vec<u8> = Vec::new();
        let mut i: usize = 0;
        while i < chain.len()
            invariant
                self.wf(),
                i <= chain@.len(),
                chain_spec(self@, entry@) == Ok::<Seq<u8>, ChainFault>(chain@),
                out@ == sectors(self@, chain@.take(i as int)),
            decreases chain.len() - i,
        {
            let c = chain[i];
            let off = self.geo.cluster_offset(c);
            assert(chain@.take(i + 1).drop_last() =~= chain@.take(i as int));
            proof {
                chain_in_range(self@, entry@);
            }
            let ghost before = out@;
            let mut j: usize = 0;
            while j < 512
                invariant
                    self.wf(),
                    j <= 512,
                    1 <= c <= 122,
                    off == cluster_off(c as int),
                    out@ == before + sector(self@, c).take(j as int),
                decreases 512 - j,
            {
                out.push(self.buf[off + j]);
                j = j + 1;
                assert(out@ =~= before + sector(self@, c).take(j as int));
            }
            assert(sector(self@, c).take(512) =~= sector(self@, c));
            i = i + 1;
        }
        assert(chain@.take(chain@.len() as int) =~= chain@);
        proof {
            chain_in_range(self@, entry@);
            lemma_sectors_len(self@, chain@);
            lemma_clusters_cover(entry.size as int, chain@.len() as int);
        }
        out.truncate(entry.size as usize);
        assert(out@ =~= sectors(self@, chain@).take(entry.size as int));
        Ok(out)
    }

    pub fn free_clusters(&self) -> (r: usize)
        requires
            self.wf(),
        ensures
            r == free_count(self@, 122),
            r <= 122,
    {
        let mut n: usize = 0;
        let mut c: u8 = 1;
        while c <= MAX_CLUSTER
            invariant
                self.wf(),
                1 <= c <= 123,
                n == free_count(self@, c - 1),
                n <= c - 1,
            decreases 123 - c,
        {
            if self.fat(c) == 0 {
                n = n + 1;
            }
            c = c + 1;
        }
        n
    }

    /// Free space in bytes (what `DSKF` reports).
    pub fn free_bytes(&self) -> (r: usize)
        requires
            self.wf(),
        ensures
            r == free_count(self@, 122) * 512,
    {
        self.free_clusters() * SECTOR_SIZE
    }

    /// The first unused or deleted directory slot.
    pub fn free_slot(&self) -> (r: Option<usize>)
        requires
            self.wf(),
        ensures
            match r {
                Some(s) => free_slot_from(self@, 0) == Some(s as int) && s < 48,
                None => free_slot_from(self@, 0) is None,
            },
    {
        let mut slot: usize = 0;
        while slot < 48
            invariant
                self.wf(),
                slot <= 48,
                free_slot_from(self@, 0) == free_slot_from(self@, slot as int),
            decreases 48 - slot,
        {
            let b0 = self.buf[self.geo.dir_offset(slot)];
            if b0 == 0x00 || b0 == DELETED {
                return Some(slot);
            }
            slot = slot + 1;
        }
        None
    }
}


/// Byte `k` of a new directory entry.
fn entry_byte(raw: &[u8; 11], time: u16, date: u16, start: u8, size: u32, k: usize) -> (b: u8)
    requires
        k < 32,
    ensures
        b == entry_bytes(raw@, time, date, start, size)[k as int],
{
    if k < 11 {
        raw[k]
    } else if k == 0x0B {
        NEW_FILE_ATTR
    } else if k == 0x16 {
        (time % 256) as u8
    } else if k == 0x17 {
        (time / 256) as u8
    } else if k == 0x18 {
        (date % 256) as u8
    } else if k == 0x19 {
        (date / 256) as u8
    } else if k == 0x1A {
        start
    } else if k == 0x1C {
        (size % 256) as u8
    } else if k == 0x1D {
        ((size / 256) % 256) as u8
    } else if k == 0x1E {
        ((size / 65536) % 256) as u8
    } else if k == 0x1F {
        (size / 16777216) as u8
    } else {
        0u8
    }
}

impl Volume {
    fn set_fat(&mut self, cluster: u8, value: u8)
        requires
            old(self).wf(),
            1 <= cluster <= 122,
        ensures
            final(self).wf(),
            final(self)@ == set_fat_spec(old(self)@, cluster, value),
    {
        self.buf[FAT_OFFSET + cluster as usize] = value;
        self.buf[FAT_COPY_OFFSET + cluster as usize] = value;
    }

    /// Store `data` as `name`. An existing file of that name is replaced only with
    /// `force` (which also overrides write protection). Everything is checked before
    /// anything changes, so an error leaves the volume untouched.
    #[verifier::rlimit(40)]
    pub fn write(&mut self, name: &FileName, data: &[u8], ts: DosTimestamp, force: bool) -> (r:
        Result<DirEntry, DiskError>)
        requires
            old(self).wf(),
        ensures
            final(self).wf(),
            match r {
                Ok(e) => write_spec(old(self)@, name@, data@, ts, force) == Ok::<
                    (Seq<u8>, EntryView),
                    Fault,
                >((final(self)@, e@)),
                Err(err) => final(self)@ == old(self)@ && (write_spec(
                    old(self)@,
                    name@,
                    data@,
                    ts,
                    force,
                ) matches Err(f) && reports(err, f, name@)),
            },
    {
        let ghost d = self@;
        let existing = self.find(name);
        proof {
            update::lemma_find_entry(d, name@);
        }
        let mut old_chain: Vec<u8> = Vec::new();
        let mut slot: usize = 0;
        match &existing {
            Some(e) => {
                if !force {
                    if e.is_protected() {
                        return Err(DiskError::Protected(name.to_text()));
                    }
                    return Err(DiskError::Exists(name.to_text()));
                }
                match self.chain(e) {
                    Ok(ch) => {
                        old_chain = ch;
                    },
                    Err(err) => {
                        return Err(err);
                    },
                }
                proof {
                    update::lemma_chain_valid(d, e@);
                }
                slot = e.slot;
            },
            None => {},
        }
        assert(old_chain@.len() <= 122);
        assert(update::valid_chain(d, old_chain@));
        let len = data.len();
        let needed_for = len / 512 + if len % 512 != 0 {
            1
        } else {
            0
        };
        let needed = if needed_for < 1 {
            1
        } else {
            needed_for
        };
        assert(needed == clusters_needed(data@.len() as int));
        let free = self.free_clusters();
        let available = free + old_chain.len();
        if needed > available {
            return Err(DiskError::DiskFull { needed: len, free: available * 512 });
        }
        if existing.is_none() {
            match self.free_slot() {
                Some(s) => {
                    slot = s;
                },
                None => {
                    return Err(DiskError::DirectoryFull);
                },
            }
        }
        self.free_clusters_of(&old_chain);
        proof {
            update::lemma_free_count_chain(d, old_chain@);
            update::lemma_free_count_le(self@, 122);
        }
        let cl = self.first_free(needed);
        let ghost d1 = self@;
        proof {
            update::lemma_free_below(d1, 123);
            assert(increasing_clusters(cl@));
        }
        let mut i: usize = 0;
        while i < cl.len()
            invariant
                self.wf(),
                i <= cl@.len(),
                cl@.len() == needed,
                needed <= 122,
                increasing_clusters(cl@),
                self@ == store(d1, cl@, data@, i as int),
            decreases cl.len() - i,
        {
            self.store_cluster(&cl, i, data);
            i = i + 1;
        }
        let (time, date) = ts.pack();
        let size = len as u32;
        let start = cl[0];
        let raw = name.raw();
        self.put_entry(slot, &raw, time, date, start, size);
        Ok(DirEntry { slot, name: *name, attr: NEW_FILE_ATTR, time, date, start_cluster: start, size })
    }

    /// Delete `entry`: mark it `E5` and free its clusters. Write-protected files need
    /// `force`. A refused delete changes nothing.
    pub fn delete(&mut self, entry: &DirEntry, force: bool) -> (r: Result<(), DiskError>)
        requires
            old(self).wf(),
            entry@.attr & ATTR_PROTECTED != 0 && !force || chain_spec(old(self)@, entry@) is Err || dir_off(
                entry.slot as int,
            ) < 65536,
        ensures
            final(self).wf(),
            match r {
                Ok(()) => delete_spec(old(self)@, entry@, force) == Ok::<Seq<u8>, Fault>(final(self)@),
                Err(err) => final(self)@ == old(self)@ && (delete_spec(old(self)@, entry@, force) matches Err(f)
                    && reports(err, f, entry@.name)),
            },
    {
        if entry.is_protected() && !force {
            return Err(DiskError::Protected(entry.name.to_text()));
        }
        let ch = match self.chain(entry) {
            Ok(ch) => ch,
            Err(err) => {
                return Err(err);
            },
        };
        proof {
            update::lemma_chain_valid(self@, entry@);
        }
        self.free_clusters_of(&ch);
        let off = self.geo.dir_offset(entry.slot);
        self.buf[off] = DELETED;
        Ok(())
    }

    /// Mark the clusters `ch` free, in order.
    fn free_clusters_of(&mut self, ch: &Vec<u8>)
        requires
            old(self).wf(),
            forall|i: int| 0 <= i < ch@.len() ==> 1 <= #[trigger] ch@[i] <= 122,
        ensures
            final(self).wf(),
            final(self)@ == free_chain(old(self)@, ch@),
    {
        let ghost d0 = self@;
        let mut i: usize = 0;
        assert(ch@.take(0) =~= Seq::<u8>::empty());
        while i < ch.len()
            invariant
                self.wf(),
                i <= ch@.len(),
                forall|k: int| 0 <= k < ch@.len() ==> 1 <= #[trigger] ch@[k] <= 122,
                self@ == free_chain(d0, ch@.take(i as int)),
            decreases ch.len() - i,
        {
            let c = ch[i];
            self.set_fat(c, 0);
            assert(ch@.take(i + 1).drop_last() =~= ch@.take(i as int));
            i = i + 1;
        }
        assert(ch@.take(ch@.len() as int) =~= ch@);
    }

    /// The first `needed` free clusters.
    fn first_free(&self, needed: usize) -> (cl: Vec<u8>)
        requires
            self.wf(),
            needed <= free_count(self@, 122),
        ensures
            cl@ == free_below(self@, 123).take(needed as int),
            cl@.len() == needed,
    {
        let mut cl: Vec<u8> = Vec::new();
        let mut c: u8 = 1;
        proof {
            update::lemma_free_below(self@, 123);
        }
        while c <= MAX_CLUSTER
            invariant
                self.wf(),
                1 <= c <= 123,
                needed <= free_count(self@, 122),
                free_below(self@, 123).len() == free_count(self@, 122),
                cl@.len() <= needed,
                cl@.len() <= free_below(self@, c as int).len(),
                cl@ == free_below(self@, c as int).take(cl@.len() as int),
                cl@.len() < needed ==> cl@.len() == free_below(self@, c as int).len(),
            decreases 123 - c,
        {
            proof {
                update::lemma_free_below(self@, c as int);
            }
            let ghost fb = free_below(self@, c as int);
            let ghost fb2 = free_below(self@, c + 1);
            if self.fat(c) == 0 {
                assert(fb2 =~= fb.push(c));
                if cl.len() < needed {
                    cl.push(c);
                    assert(cl@ =~= fb2.take(cl@.len() as int));
                } else {
                    assert(fb2.take(cl@.len() as int) =~= fb.take(cl@.len() as int));
                }
            } else {
                assert(fb2 =~= fb);
            }
            c = c + 1;
        }
        cl
    }

    /// Link the `i`-th cluster of `cl` to the next and fill it with its chunk of `data`.
    fn store_cluster(&mut self, cl: &Vec<u8>, i: usize, data: &[u8])
        requires
            old(self).wf(),
            i < cl@.len(),
            cl@.len() <= 122,
            increasing_clusters(cl@),
        ensures
            final(self).wf(),
            final(self)@ == splice(
                set_fat_spec(old(self)@, cl@[i as int], next_of(cl@, i as int)),
                cluster_off(cl@[i as int] as int),
                chunk(data@, i as int),
            ),
    {
        let c = cl[i];
        let next = if i + 1 < cl.len() {
            cl[i + 1]
        } else {
            END_OF_CHAIN
        };
        self.set_fat(c, next);
        let ghost before = self@;
        let off = self.geo.cluster_offset(c);
        let base = i * 512;
        let mut j: usize = 0;
        while j < 512
            invariant
                self.wf(),
                j <= 512,
                1 <= c <= 122,
                off == cluster_off(c as int),
                base == i * 512,
                i < 122,
                before.len() == 65536,
                forall|k: int|
                    0 <= k < 65536 ==> #[trigger] self@[k] == if off <= k < off + j {
                        chunk(data@, i as int)[k - off]
                    } else {
                        before[k]
                    },
            decreases 512 - j,
        {
            let b = if base + j < data.len() {
                data[base + j]
            } else {
                0u8
            };
            assert(b == chunk(data@, i as int)[j as int]);
            let ghost prev = self@;
            self.buf[off + j] = b;
            assert(self@ == prev.update(off + j, b));
            j = j + 1;
        }
        proof {
            update::lemma_splice(before, off as int, chunk(data@, i as int));
        }
        assert(self@ =~= splice(before, off as int, chunk(data@, i as int)));
    }

    /// Write a new directory entry into `slot`.
    fn put_entry(&mut self, slot: usize, raw: &[u8; 11], time: u16, date: u16, start: u8, size: u32)
        requires
            old(self).wf(),
            slot < 48,
        ensures
            final(self).wf(),
            final(self)@ == splice(old(self)@, dir_off(slot as int), entry_bytes(raw@, time, date, start, size)),
    {
        let ghost before = self@;
        let ghost eb = entry_bytes(raw@, time, date, start, size);
        let off = self.geo.dir_offset(slot);
        let mut k: usize = 0;
        while k < 32
            invariant
                self.wf(),
                k <= 32,
                slot < 48,
                off == dir_off(slot as int),
                before.len() == 65536,
                eb == entry_bytes(raw@, time, date, start, size),
                forall|x: int|
                    0 <= x < 65536 ==> #[trigger] self@[x] == if off <= x < off + k {
                        eb[x - off]
                    } else {
                        before[x]
                    },
            decreases 32 - k,
        {
            let b = entry_byte(raw, time, date, start, size, k);
            let ghost prev = self@;
            self.buf[off + k] = b;
            assert(self@ == prev.update(off + k, b));
            k = k + 1;
        }
        proof {
            update::lemma_splice(before, off as int, eb);
        }
        assert(self@ =~= splice(before, off as int, eb));
    }

}

/// Every cluster of a valid chain is in `1..=122`.
proof fn chain_from_in_range(d: Seq<u8>, c: u8, acc: Seq<u8>)
    requires
        forall|i: int| 0 <= i < acc.len() ==> 1 <= #[trigger] acc[i] <= 122,
    ensures
        chain_from(d, c, acc) matches Ok(ch) ==> (forall|i: int| 0 <= i < ch.len() ==> 1 <= #[trigger] ch[i] <= 122)
            && ch.len() <= 122,
    decreases 123 - acc.len(),
{
    if !(c == 0 || c > 122) && !(acc.contains(c) || acc.len() >= 122) {
        let next = fat(d, c as int);
        if next != END_OF_CHAIN && next != 0 {
            chain_from_in_range(d, next, acc.push(c));
        }
    }
}

/// The sectors of in-range clusters are 512 bytes each.
proof fn lemma_sectors_len(d: Seq<u8>, ch: Seq<u8>)
    requires
        d.len() == 65536,
        forall|i: int| 0 <= i < ch.len() ==> 1 <= #[trigger] ch[i] <= 122,
    ensures
        sectors(d, ch).len() == 512 * ch.len(),
    decreases ch.len(),
{
    if ch.len() > 0 {
        lemma_sectors_len(d, ch.drop_last());
        assert(1 <= ch[ch.len() - 1] <= 122);
    }
}

/// `n` clusters, at least `clusters_for(size)` of them, hold `size` bytes.
proof fn lemma_clusters_cover(size: int, n: int)
    requires
        0 <= size,
        n >= clusters_for(size),
    ensures
        512 * n >= size,
{
    assert(512 * ((size + 511) / 512) >= size) by (nonlinear_arith)
        requires
            0 <= size,
    ;
    assert(512 * n >= 512 * ((size + 511) / 512)) by (nonlinear_arith)
        requires
            n >= (size + 511) / 512,
    ;
}

proof fn chain_in_range(d: Seq<u8>, e: EntryView)
    ensures
        chain_spec(d, e) matches Ok(ch) ==> (forall|i: int| 0 <= i < ch.len() ==> 1 <= #[trigger] ch[i] <= 122)
            && ch.len() <= 122,
{
    chain_from_in_range(d, e.start_cluster, Seq::empty());
}

} // verus!
