//! What writing and deleting a file do to a side's bytes, stated over the bytes alone,
//! and the facts about those changes that reading the side back relies on.

use vstd::prelude::*;

use super::name::name_text;
use super::time::{pack_spec, DosTimestamp};
use super::{
    lemma_clusters_cover, list_spec, formatted, chain_from, chain_spec, cluster_off, clusters_for, dir_off, entry_at, fat, find_in,
    chain_report, corrupt_with, find_spec, free_count, free_slot_from, list_from, read_spec, sector, sectors, ChainFault,
    DiskError, EntryView, ATTR_PROTECTED, DELETED, END_OF_CHAIN, NEW_FILE_ATTR,
};

verus! {

/// `d` with FAT entry `c` and its copy set to `v`.
pub open spec fn set_fat_spec(d: Seq<u8>, c: u8, v: u8) -> Seq<u8> {
    d.update(512 + c, v).update(1024 + c, v)
}

/// `d` with the clusters `ch` marked free, in order.
pub open spec fn free_chain(d: Seq<u8>, ch: Seq<u8>) -> Seq<u8>
    decreases ch.len(),
{
    if ch.len() == 0 {
        d
    } else {
        set_fat_spec(free_chain(d, ch.drop_last()), ch.last(), 0)
    }
}

/// The free clusters among `1..c`, in increasing order.
pub open spec fn free_below(d: Seq<u8>, c: int) -> Seq<u8>
    decreases c,
{
    if c <= 1 {
        Seq::empty()
    } else {
        free_below(d, c - 1) + if fat(d, c - 1) == 0 {
            seq![(c - 1) as u8]
        } else {
            Seq::<u8>::empty()
        }
    }
}

/// Clusters a file of `len` bytes is given: as many as its bytes need, and at least one,
/// so that its entry never points at cluster 0.
pub open spec fn clusters_needed(len: int) -> int {
    if clusters_for(len) < 1 {
        1
    } else {
        clusters_for(len)
    }
}

/// The FAT value of the `i`-th cluster of `cl`: the next cluster, or the end mark.
pub open spec fn next_of(cl: Seq<u8>, i: int) -> u8 {
    if i + 1 < cl.len() {
        cl[i + 1]
    } else {
        END_OF_CHAIN
    }
}

/// The 512 bytes stored in the `i`-th cluster of a file holding `data`: zero-padded.
pub open spec fn chunk(data: Seq<u8>, i: int) -> Seq<u8> {
    Seq::new(512, |k: int| if i * 512 + k < data.len() { data[i * 512 + k] } else { 0u8 })
}

/// `d` with `s` written over it at `at`.
pub open spec fn splice(d: Seq<u8>, at: int, s: Seq<u8>) -> Seq<u8> {
    d.subrange(0, at) + s + d.subrange(at + s.len(), d.len() as int)
}

/// `d` after linking the first `n` clusters of `cl` into a chain and filling them with
/// the matching chunks of `data`.
pub open spec fn store(d: Seq<u8>, cl: Seq<u8>, data: Seq<u8>, n: int) -> Seq<u8>
    decreases n,
{
    if n <= 0 {
        d
    } else {
        let prev = store(d, cl, data, n - 1);
        let c = cl[n - 1];
        splice(set_fat_spec(prev, c, next_of(cl, n - 1)), cluster_off(c as int), chunk(data, n - 1))
    }
}

/// The 32 bytes of a newly written directory entry (attribute `20`, the rest zero).
pub open spec fn entry_bytes(name: Seq<u8>, time: u16, date: u16, start: u8, size: u32) -> Seq<u8> {
    Seq::new(
        32,
        |k: int|
            if k < 11 {
                name[k]
            } else if k == 0x0B {
                NEW_FILE_ATTR
            } else if k == 0x16 {
                (time % 256) as u8
            } else if k == 0x17 {
                (time / 256) as u8
            } else if k == 0x18 {
                (date % 256) as u8
            } else if k == 0x19 {
                (date / 256) as u8
            } else if k == 0x1A {
                start
            } else if k == 0x1C {
                (size % 256) as u8
            } else if k == 0x1D {
                ((size / 256) % 256) as u8
            } else if k == 0x1E {
                ((size / 65536) % 256) as u8
            } else if k == 0x1F {
                (size / 16777216) as u8
            } else {
                0u8
            },
    )
}

/// Why a write or a delete is refused.
pub enum Fault {
    Exists,
    Protected,
    /// A broken chain, reported with this text.
    Corrupt(Seq<char>),
    DiskFull { needed: nat, free: nat },
    DirectoryFull,
}

/// `e` is the error that reports `f` for the file named `name`.
pub open spec fn reports(e: DiskError, f: Fault, name: Seq<u8>) -> bool {
    match f {
        Fault::Exists => e matches DiskError::Exists(s) && s@ == name_text(name),
        Fault::Protected => e matches DiskError::Protected(s) && s@ == name_text(name),
        Fault::Corrupt(t) => corrupt_with(e, t),
        Fault::DiskFull { needed, free } => e matches DiskError::DiskFull { needed: n, free: fr }
            && n == needed && fr == free,
        Fault::DirectoryFull => e is DirectoryFull,
    }
}

/// The clusters a write may use: free ones and those of the file it replaces.
pub open spec fn available(d: Seq<u8>, old_chain: Seq<u8>) -> int {
    (free_count(d, 122) + old_chain.len()) as int
}

/// The clusters of the file a write replaces (none for a new file).
pub open spec fn replaced_chain(d: Seq<u8>, name: Seq<u8>) -> Result<Seq<u8>, ChainFault> {
    match find_spec(d, name) {
        Some(e) => chain_spec(d, e),
        None => Ok(Seq::empty()),
    }
}

/// The directory slot a write uses: the replaced file's, or the first unused or deleted.
pub open spec fn target_slot(d: Seq<u8>, name: Seq<u8>) -> Option<int> {
    match find_spec(d, name) {
        Some(e) => Some(e.slot),
        None => free_slot_from(d, 0),
    }
}

/// The clusters a file of `len` bytes gets on side `d1`: the first free ones.
pub open spec fn allocation(d1: Seq<u8>, len: int) -> Seq<u8> {
    free_below(d1, 123).take(clusters_needed(len))
}

/// The side after the write itself: the old chain freed, the new one stored, the entry
/// put into slot `s`; and that entry.
pub open spec fn write_image(
    d: Seq<u8>,
    old_chain: Seq<u8>,
    s: int,
    name: Seq<u8>,
    data: Seq<u8>,
    ts: DosTimestamp,
) -> (Seq<u8>, EntryView) {
    let d1 = free_chain(d, old_chain);
    let cl = allocation(d1, data.len() as int);
    let d2 = store(d1, cl, data, clusters_needed(data.len() as int));
    let (time, date) = pack_spec(ts);
    let size = data.len() as u32;
    let ev = EntryView { slot: s, name, attr: NEW_FILE_ATTR, time, date, start_cluster: cl[0], size };
    (splice(d2, dir_off(s), entry_bytes(name, time, date, cl[0], size)), ev)
}

/// Writing `data` as `name` on side `d`: the new side and the new directory entry, or
/// why it is refused. An existing file of that name is replaced only with `force`; its
/// clusters are freed first, then the first free clusters are taken, and the entry goes
/// to the old file's slot or to the first unused or deleted one.
pub open spec fn write_spec(
    d: Seq<u8>,
    name: Seq<u8>,
    data: Seq<u8>,
    ts: DosTimestamp,
    force: bool,
) -> Result<(Seq<u8>, EntryView), Fault> {
    let existing = find_spec(d, name);
    if existing is Some && !force {
        if existing->0.attr & ATTR_PROTECTED != 0 {
            Err(Fault::Protected)
        } else {
            Err(Fault::Exists)
        }
    } else {
        match replaced_chain(d, name) {
            Err(f) => Err(Fault::Corrupt(chain_report(existing->0, f))),
            Ok(och) => {
                if clusters_needed(data.len() as int) > available(d, och) {
                    Err(Fault::DiskFull { needed: data.len(), free: (available(d, och) * 512) as nat })
                } else {
                    match target_slot(d, name) {
                        None => Err(Fault::DirectoryFull),
                        Some(s) => Ok(write_image(d, och, s, name, data, ts)),
                    }
                }
            },
        }
    }
}

/// Deleting the file of entry `e`: its clusters freed and its slot marked `E5`, or why it
/// is refused. A write-protected file needs `force`.
pub open spec fn delete_spec(d: Seq<u8>, e: EntryView, force: bool) -> Result<Seq<u8>, Fault> {
    if e.attr & ATTR_PROTECTED != 0 && !force {
        Err(Fault::Protected)
    } else {
        match chain_spec(d, e) {
            Err(f) => Err(Fault::Corrupt(chain_report(e, f))),
            Ok(ch) => Ok(free_chain(d, ch).update(dir_off(e.slot), DELETED)),
        }
    }
}

/// Cluster numbers in `1..=122`, strictly increasing.
pub open spec fn increasing_clusters(cl: Seq<u8>) -> bool {
    &&& forall|i: int| 0 <= i < cl.len() ==> 1 <= #[trigger] cl[i] <= 122
    &&& forall|i: int, j: int| 0 <= i < j < cl.len() ==> #[trigger] cl[i] < #[trigger] cl[j]
}

/// Cluster numbers in `1..=122`, none twice, none free in `d`.
pub open spec fn valid_chain(d: Seq<u8>, ch: Seq<u8>) -> bool {
    &&& forall|i: int| 0 <= i < ch.len() ==> 1 <= #[trigger] ch[i] <= 122
    &&& forall|i: int| 0 <= i < ch.len() ==> fat(d, #[trigger] ch[i] as int) != 0
    &&& forall|i: int, j: int| 0 <= i < j < ch.len() ==> #[trigger] ch[i] != #[trigger] ch[j]
}

// ── pointwise facts ──────────────────────────────────────────────────────

pub proof fn lemma_splice(d: Seq<u8>, at: int, s: Seq<u8>)
    requires
        0 <= at,
        at + s.len() <= d.len(),
    ensures
        splice(d, at, s).len() == d.len(),
        forall|k: int|
            0 <= k < d.len() ==> #[trigger] splice(d, at, s)[k] == if k < at {
                d[k]
            } else if k < at + s.len() {
                s[k - at]
            } else {
                d[k]
            },
{
}

pub proof fn lemma_free_chain(d: Seq<u8>, ch: Seq<u8>)
    requires
        d.len() == 65536,
        forall|i: int| 0 <= i < ch.len() ==> 1 <= #[trigger] ch[i] <= 122,
    ensures
        free_chain(d, ch).len() == 65536,
        forall|k: int|
            0 <= k < 65536 ==> #[trigger] free_chain(d, ch)[k] == if (513 <= k <= 634 && ch.contains(
                (k - 512) as u8,
            )) || (1025 <= k <= 1146 && ch.contains((k - 1024) as u8)) {
                0u8
            } else {
                d[k]
            },
    decreases ch.len(),
{
    if ch.len() > 0 {
        let p = ch.drop_last();
        lemma_free_chain(d, p);
        assert forall|k: int| 0 <= k < 65536 implies #[trigger] free_chain(d, ch)[k] == if (513
            <= k <= 634 && ch.contains((k - 512) as u8)) || (1025 <= k <= 1146 && ch.contains(
            (k - 1024) as u8,
        )) {
            0u8
        } else {
            d[k]
        } by {
            let c = ch.last();
            assert(ch == p.push(c));
            assert(forall|x: u8| ch.contains(x) <==> (p.contains(x) || x == c)) by {
                assert forall|x: u8| ch.contains(x) implies (p.contains(x) || x == c) by {
                    let i = choose|i: int| 0 <= i < ch.len() && ch[i] == x;
                    if i < ch.len() - 1 {
                        assert(p[i] == x);
                    }
                }
                assert forall|x: u8| p.contains(x) implies ch.contains(x) by {
                    let i = choose|i: int| 0 <= i < p.len() && p[i] == x;
                    assert(ch[i] == x);
                }
                assert(ch[ch.len() - 1] == c);
            }
        }
    }
}

/// The changes of `store` stay inside the chain's FAT entries and sectors.
pub proof fn lemma_store(d: Seq<u8>, cl: Seq<u8>, data: Seq<u8>, n: int)
    requires
        d.len() == 65536,
        0 <= n <= cl.len(),
        increasing_clusters(cl),
    ensures
        store(d, cl, data, n).len() == 65536,
        forall|i: int| 0 <= i < n ==> fat(store(d, cl, data, n), #[trigger] cl[i] as int) == next_of(cl, i),
        forall|i: int| 0 <= i < n ==> sector(store(d, cl, data, n), #[trigger] cl[i]) == chunk(data, i),
        forall|k: int| 1536 <= k < 3072 ==> #[trigger] store(d, cl, data, n)[k] == d[k],
        store(d, cl, data, n)[512] == d[512],
        forall|c: u8| 1 <= c <= 122 && !cl.take(n).contains(c) ==> fat(store(d, cl, data, n), c as int)
            == #[trigger] fat(d, c as int),
    decreases n,
{
    if n > 0 {
        lemma_store(d, cl, data, n - 1);
        let prev = store(d, cl, data, n - 1);
        let c = cl[n - 1];
        let f = set_fat_spec(prev, c, next_of(cl, n - 1));
        let off = cluster_off(c as int);
        assert(1 <= c <= 122);
        lemma_splice(f, off, chunk(data, n - 1));
        let cur = store(d, cl, data, n);
        assert(cur == splice(f, off, chunk(data, n - 1)));
        assert forall|i: int| 0 <= i < n implies fat(cur, #[trigger] cl[i] as int) == next_of(cl, i) by {
            assert(cur[512 + cl[i]] == f[512 + cl[i]]);
            if i < n - 1 {
                assert(cl[i] < cl[n - 1]);
            }
        }
        assert forall|i: int| 0 <= i < n implies sector(cur, #[trigger] cl[i]) == chunk(data, i) by {
            if i < n - 1 {
                assert(cl[i] < cl[n - 1]);
                assert forall|k: int| 0 <= k < 512 implies sector(cur, cl[i])[k] == sector(prev, cl[i])[k] by {
                    assert(cur[cluster_off(cl[i] as int) + k] == f[cluster_off(cl[i] as int) + k]);
                }
                assert(sector(cur, cl[i]) =~= sector(prev, cl[i]));
            } else {
                assert(sector(cur, cl[i]) =~= chunk(data, i));
            }
        }
        assert forall|k: int| 1536 <= k < 3072 implies #[trigger] cur[k] == d[k] by {
            assert(cur[k] == f[k]);
        }
        assert(cur[512] == f[512]);
        assert forall|x: u8| 1 <= x <= 122 && !cl.take(n).contains(x) implies fat(cur, x as int)
            == #[trigger] fat(d, x as int) by {
            assert(cl.take(n)[n - 1] == c);
            assert(x != c);
            assert(cur[512 + x] == f[512 + x]);
            assert forall|i: int| 0 <= i < n - 1 implies #[trigger] cl.take(n - 1)[i] != x by {
                assert(cl.take(n)[i] == cl.take(n - 1)[i]);
            }
        }
    }
}

/// Setting one FAT entry to free adds one free cluster if it was in use.
pub proof fn lemma_free_count_set(d: Seq<u8>, c: u8, n: int)
    requires
        d.len() == 65536,
        1 <= c <= 122,
        0 <= n <= 122,
    ensures
        free_count(set_fat_spec(d, c, 0), n) == free_count(d, n) + if c <= n && fat(d, c as int)
            != 0 {
            1int
        } else {
            0int
        },
    decreases n,
{
    if n > 0 {
        lemma_free_count_set(d, c, n - 1);
    }
}

/// Freeing a valid chain adds its length to the free count.
pub proof fn lemma_free_count_chain(d: Seq<u8>, ch: Seq<u8>)
    requires
        d.len() == 65536,
        valid_chain(d, ch),
    ensures
        free_count(free_chain(d, ch), 122) == free_count(d, 122) + ch.len(),
    decreases ch.len(),
{
    if ch.len() > 0 {
        let p = ch.drop_last();
        let c = ch.last();
        assert(valid_chain(d, p));
        lemma_free_count_chain(d, p);
        lemma_free_chain(d, p);
        assert(!p.contains(c)) by {
            if p.contains(c) {
                let i = choose|i: int| 0 <= i < p.len() && p[i] == c;
                assert(ch[i] == ch[ch.len() - 1]);
            }
        }
        assert(ch[ch.len() - 1] == c);
        assert(free_chain(d, p)[512 + c] == d[512 + c]);
        lemma_free_count_set(free_chain(d, p), c, 122);
    }
}

/// `free_below` lists exactly the free clusters, in increasing order.
pub proof fn lemma_free_below(d: Seq<u8>, c: int)
    requires
        1 <= c <= 123,
    ensures
        free_below(d, c).len() == free_count(d, c - 1),
        forall|i: int| 0 <= i < free_below(d, c).len() ==> 1 <= #[trigger] free_below(d, c)[i] < c,
        forall|i: int|
            0 <= i < free_below(d, c).len() ==> fat(d, #[trigger] free_below(d, c)[i] as int) == 0,
        forall|i: int, j: int|
            0 <= i < j < free_below(d, c).len() ==> #[trigger] free_below(d, c)[i]
                < #[trigger] free_below(d, c)[j],
    decreases c,
{
    if c > 1 {
        lemma_free_below(d, c - 1);
    }
}

/// A chain `chain_from` accepts is valid, and extends the clusters it started from.
pub proof fn lemma_chain_from_valid(d: Seq<u8>, c: u8, acc: Seq<u8>)
    requires
        valid_chain(d, acc),
    ensures
        chain_from(d, c, acc) matches Ok(ch) ==> valid_chain(d, ch) && ch.len() <= 122,
    decreases 123 - acc.len(),
{
    if !(c == 0 || c > 122) && !(acc.contains(c) || acc.len() >= 122) {
        let next = fat(d, c as int);
        let a2 = acc.push(c);
        if next != 0 {
            assert(valid_chain(d, a2)) by {
                assert forall|i: int, j: int| 0 <= i < j < a2.len() implies #[trigger] a2[i]
                    != #[trigger] a2[j] by {
                    if j == a2.len() - 1 {
                        assert(acc[i] == a2[i]);
                    }
                }
            }
            if next != END_OF_CHAIN {
                lemma_chain_from_valid(d, next, a2);
            }
        }
    }
}

pub proof fn lemma_chain_valid(d: Seq<u8>, e: EntryView)
    ensures
        chain_spec(d, e) matches Ok(ch) ==> valid_chain(d, ch) && ch.len() <= 122,
{
    lemma_chain_from_valid(d, e.start_cluster, Seq::empty());
}


/// No more than `n` clusters among `1..=n` are free.
pub proof fn lemma_free_count_le(d: Seq<u8>, n: int)
    requires
        0 <= n,
    ensures
        free_count(d, n) <= n,
    decreases n,
{
    if n > 0 {
        lemma_free_count_le(d, n - 1);
    }
}

/// Every listed entry is the one stored in its slot, a used slot at or after `from`.
pub proof fn lemma_list_from(d: Seq<u8>, from: int)
    requires
        0 <= from,
    ensures
        forall|i: int|
            0 <= i < list_from(d, from).len() ==> {
                let e = #[trigger] list_from(d, from)[i];
                &&& from <= e.slot < 48
                &&& e == entry_at(d, e.slot)
                &&& d[dir_off(e.slot)] != 0
                &&& d[dir_off(e.slot)] != DELETED
            },
    decreases 48 - from,
{
    if from < 48 {
        lemma_list_from(d, from + 1);
        let l = list_from(d, from);
        let rest = list_from(d, from + 1);
        if d[dir_off(from)] != 0x00 && d[dir_off(from)] != DELETED {
            assert(l == seq![entry_at(d, from)] + rest);
            assert forall|i: int| 0 <= i < l.len() implies {
                let e = #[trigger] l[i];
                &&& from <= e.slot < 48
                &&& e == entry_at(d, e.slot)
                &&& d[dir_off(e.slot)] != 0
                &&& d[dir_off(e.slot)] != DELETED
            } by {
                if i > 0 {
                    assert(l[i] == rest[i - 1]);
                }
            }
        }
    }
}

/// What `find_in` finds is one of the entries, and carries the name.
pub proof fn lemma_find_in(es: Seq<EntryView>, name: Seq<u8>)
    ensures
        find_in(es, name) matches Some(e) ==> e.name == name && exists|i: int|
            0 <= i < es.len() && es[i] == e,
    decreases es.len(),
{
    if es.len() > 0 && es[0].name != name {
        lemma_find_in(es.drop_first(), name);
        if let Some(e) = find_in(es.drop_first(), name) {
            let i = choose|i: int| 0 <= i < es.drop_first().len() && es.drop_first()[i] == e;
            assert(es[i + 1] == e);
        }
    }
}

/// The entry `find_spec` finds is stored in its slot.
pub proof fn lemma_find_entry(d: Seq<u8>, name: Seq<u8>)
    ensures
        find_spec(d, name) matches Some(e) ==> {
            &&& 0 <= e.slot < 48
            &&& e == entry_at(d, e.slot)
            &&& e.name == name
            &&& d[dir_off(e.slot)] != 0
            &&& d[dir_off(e.slot)] != DELETED
        },
{
    lemma_list_from(d, 0);
    lemma_find_in(list_from(d, 0), name);
    if let Some(e) = find_spec(d, name) {
        let i = choose|i: int| 0 <= i < list_from(d, 0).len() && list_from(d, 0)[i] == e;
        assert(list_from(d, 0)[i] == e);
    }
}

// ── what reading back a written side gives ─────────────────────────────

/// `data` followed by zeros, `m` bytes in all.
pub open spec fn padded(data: Seq<u8>, m: int) -> Seq<u8> {
    Seq::new(m as nat, |k: int| if k < data.len() { data[k] } else { 0u8 })
}

/// A side on which the clusters `cl` hold the chunks of `data`, in order.
pub open spec fn holds(img: Seq<u8>, cl: Seq<u8>, data: Seq<u8>) -> bool {
    forall|i: int| 0 <= i < cl.len() ==> sector(img, #[trigger] cl[i]) == chunk(data, i)
}

proof fn lemma_sectors_padded(img: Seq<u8>, cl: Seq<u8>, data: Seq<u8>, n: int)
    requires
        0 <= n <= cl.len(),
        holds(img, cl, data),
    ensures
        sectors(img, cl.take(n)) == padded(data, 512 * n),
    decreases n,
{
    if n > 0 {
        lemma_sectors_padded(img, cl, data, n - 1);
        assert(cl.take(n).drop_last() =~= cl.take(n - 1));
        assert(cl.take(n).last() == cl[n - 1]);
        assert(sector(img, cl[n - 1]) == chunk(data, n - 1));
        assert(sectors(img, cl.take(n)) =~= padded(data, 512 * n));
    } else {
        assert(sectors(img, cl.take(0)) =~= padded(data, 0));
    }
}

/// On a side whose FAT links `cl` into a chain, following it from `cl[i]` gives `cl`.
proof fn lemma_chain_walk(img: Seq<u8>, cl: Seq<u8>, i: int)
    requires
        0 <= i < cl.len(),
        cl.len() <= 122,
        increasing_clusters(cl),
        forall|j: int| 0 <= j < cl.len() ==> fat(img, #[trigger] cl[j] as int) == next_of(cl, j),
    ensures
        chain_from(img, cl[i], cl.take(i)) == Ok::<Seq<u8>, ChainFault>(cl),
    decreases cl.len() - i,
{
    assert(!cl.take(i).contains(cl[i])) by {
        if cl.take(i).contains(cl[i]) {
            let j = choose|j: int| 0 <= j < cl.take(i).len() && cl.take(i)[j] == cl[i];
            assert(cl[j] < cl[i]);
        }
    }
    assert(cl.take(i).push(cl[i]) =~= cl.take(i + 1));
    assert(fat(img, cl[i] as int) == next_of(cl, i));
    if i + 1 < cl.len() {
        lemma_chain_walk(img, cl, i + 1);
        assert(1 <= cl[i + 1] <= 122);
    } else {
        assert(cl.take(i + 1) =~= cl);
    }
}

/// The directory region of a side, slot `s` aside, is that of `d`.
pub open spec fn same_dir_but(img: Seq<u8>, d: Seq<u8>, s: int) -> bool {
    forall|k: int|
        1536 <= k < 3072 && !(dir_off(s) <= k < dir_off(s) + 32) ==> #[trigger] img[k] == d[k]
}

proof fn lemma_entry_at_same(img: Seq<u8>, d: Seq<u8>, s: int, t: int)
    requires
        img.len() == 65536,
        d.len() == 65536,
        0 <= t < 48,
        t != s,
        same_dir_but(img, d, s),
    ensures
        entry_at(img, t) == entry_at(d, t),
        img[dir_off(t)] == d[dir_off(t)],
{
    let o = dir_off(t);
    assert forall|k: int| o <= k < o + 32 implies #[trigger] img[k] == d[k] by {
        if t < s {
            assert(t + 1 <= s);
        } else {
            assert(s + 1 <= t);
        }
    }
    assert(img[o] == d[o]);
    assert(img.subrange(o, o + 11) =~= d.subrange(o, o + 11));
    assert(img[o + 0x0B] == d[o + 0x0B]);
    assert(img[o + 0x16] == d[o + 0x16] && img[o + 0x17] == d[o + 0x17]);
    assert(img[o + 0x18] == d[o + 0x18] && img[o + 0x19] == d[o + 0x19]);
    assert(img[o + 0x1A] == d[o + 0x1A]);
    assert(img[o + 0x1C] == d[o + 0x1C] && img[o + 0x1D] == d[o + 0x1D]);
    assert(img[o + 0x1E] == d[o + 0x1E] && img[o + 0x1F] == d[o + 0x1F]);
}

/// Slots before the one `find_in` reaches are used, and named otherwise where not deleted.
proof fn lemma_find_prefix(d: Seq<u8>, name: Seq<u8>, from: int)
    requires
        0 <= from,
    ensures
        find_in(list_from(d, from), name) matches Some(e) ==> {
            &&& from <= e.slot < 48
            &&& forall|t: int|
                from <= t < e.slot ==> #[trigger] d[dir_off(t)] != 0 && (d[dir_off(t)] != DELETED
                    ==> entry_at(d, t).name != name)
        },
    decreases 48 - from,
{
    if from < 48 && d[dir_off(from)] != 0 {
        lemma_find_prefix(d, name, from + 1);
        if d[dir_off(from)] != DELETED {
            let l = list_from(d, from);
            assert(l == seq![entry_at(d, from)] + list_from(d, from + 1));
            assert(l.drop_first() =~= list_from(d, from + 1));
        }
    }
}

/// With no entry of that name, the slots before the first free one are used, by other names.
proof fn lemma_free_slot_prefix(d: Seq<u8>, name: Seq<u8>, from: int)
    requires
        0 <= from,
        find_in(list_from(d, from), name) is None,
    ensures
        free_slot_from(d, from) matches Some(s) ==> {
            &&& from <= s < 48
            &&& (d[dir_off(s)] == 0 || d[dir_off(s)] == DELETED)
            &&& forall|t: int|
                from <= t < s ==> #[trigger] d[dir_off(t)] != 0 && d[dir_off(t)] != DELETED
                    && entry_at(d, t).name != name
        },
    decreases 48 - from,
{
    if from < 48 && d[dir_off(from)] != 0 && d[dir_off(from)] != DELETED {
        let l = list_from(d, from);
        assert(l == seq![entry_at(d, from)] + list_from(d, from + 1));
        assert(l.drop_first() =~= list_from(d, from + 1));
        assert(l[0].name != name);
        assert(entry_at(d, from).name != name);
        lemma_free_slot_prefix(d, name, from + 1);
        assert(free_slot_from(d, from) == free_slot_from(d, from + 1));
        if let Some(s) = free_slot_from(d, from) {
            assert forall|t: int| from <= t < s implies #[trigger] d[dir_off(t)] != 0 && d[dir_off(t)]
                != DELETED && entry_at(d, t).name != name by {
                if t > from {
                    assert(from + 1 <= t);
                }
            }
        }
    }
}

/// Listing a side whose directory differs from `d` only in slot `s`, which now holds `ev`.
proof fn lemma_find_reaches(img: Seq<u8>, d: Seq<u8>, s: int, ev: EntryView, name: Seq<u8>, from: int)
    requires
        img.len() == 65536,
        d.len() == 65536,
        0 <= from <= s < 48,
        same_dir_but(img, d, s),
        entry_at(img, s) == ev,
        ev.name == name,
        img[dir_off(s)] != 0,
        img[dir_off(s)] != DELETED,
        forall|t: int|
            from <= t < s ==> #[trigger] d[dir_off(t)] != 0 && (d[dir_off(t)] != DELETED
                ==> entry_at(d, t).name != name),
    ensures
        find_in(list_from(img, from), name) == Some(ev),
    decreases s - from,
{
    let l = list_from(img, from);
    if from == s {
        assert(l == seq![entry_at(img, from)] + list_from(img, from + 1));
    } else {
        lemma_entry_at_same(img, d, s, from);
        lemma_find_reaches(img, d, s, ev, name, from + 1);
        assert(d[dir_off(from)] != 0);
        if img[dir_off(from)] != DELETED {
            assert(l == seq![entry_at(img, from)] + list_from(img, from + 1));
            assert(l.drop_first() =~= list_from(img, from + 1));
        }
    }
}

proof fn lemma_le_bytes(time: u16, size: u32)
    ensures
        ((time % 256) as u8 + ((time / 256) as u8) * 256) as u16 == time,
        ((size % 256) as u8 + (((size / 256) % 256) as u8) * 256 + (((size / 65536) % 256) as u8)
            * 65536 + ((size / 16777216) as u8) * 16777216) as u32 == size,
{
    assert(((time % 256) as u8 + ((time / 256) as u8) * 256) as u16 == time) by (bit_vector);
    assert(((size % 256) as u8 + (((size / 256) % 256) as u8) * 256 + (((size / 65536) % 256) as u8)
        * 65536 + ((size / 16777216) as u8) * 16777216) as u32 == size) by (bit_vector);
}

/// The clusters a write gets: enough of them, in increasing order.
proof fn lemma_allocation(d: Seq<u8>, och: Seq<u8>, len: int)
    requires
        d.len() == 65536,
        valid_chain(d, och),
        0 <= len,
        clusters_needed(len) <= available(d, och),
    ensures
        allocation(free_chain(d, och), len).len() == clusters_needed(len),
        clusters_needed(len) <= 122,
        increasing_clusters(allocation(free_chain(d, och), len)),
{
    let d1 = free_chain(d, och);
    lemma_free_chain(d, och);
    lemma_free_count_chain(d, och);
    lemma_free_count_le(d1, 122);
    lemma_free_below(d1, 123);
}

/// What a write's image is made of.
#[verifier::spinoff_prover]
proof fn lemma_image(d: Seq<u8>, och: Seq<u8>, s: int, name: Seq<u8>, data: Seq<u8>, ts: DosTimestamp)
    -> (r: (Seq<u8>, Seq<u8>))
    requires
        d.len() == 65536,
        valid_chain(d, och),
        clusters_needed(data.len() as int) <= available(d, och),
        0 <= s < 48,
    ensures
        ({
            let (d2, cl) = r;
            let (img, ev) = write_image(d, och, s, name, data, ts);
            &&& ev.slot == s
            &&& 1 <= cl.len() <= 122
            &&& cl.len() >= clusters_for(data.len() as int)
            &&& increasing_clusters(cl)
            &&& ev.start_cluster == cl[0]
            &&& ev.size == data.len()
            &&& ev.name == name
            &&& d2.len() == 65536
            &&& forall|j: int| 0 <= j < cl.len() ==> fat(d2, #[trigger] cl[j] as int) == next_of(cl, j)
            &&& holds(d2, cl, data)
            &&& same_dir_but(d2, d, s)
            &&& d2[512] == d[512]
            &&& img == splice(d2, dir_off(s), entry_bytes(name, ev.time, ev.date, cl[0], ev.size))
        }),
{
    let needed = clusters_needed(data.len() as int);
    let d1 = free_chain(d, och);
    lemma_allocation(d, och, data.len() as int);
    lemma_free_chain(d, och);
    let cl = allocation(d1, data.len() as int);
    lemma_store(d1, cl, data, needed);
    let d2 = store(d1, cl, data, needed);
    assert forall|k: int| 1536 <= k < 3072 && !(dir_off(s) <= k < dir_off(s) + 32) implies #[trigger] d2[k]
        == d[k] by {
        assert(d2[k] == d1[k]);
    }
    assert(d1[512] == d[512]);
    assert(data.len() <= 62464) by {
        assert(clusters_for(data.len() as int) <= 122);
    }
    (d2, cl)
}

/// The replaced chain and the slot of a successful write.
proof fn lemma_write_plan(d: Seq<u8>, name: Seq<u8>, data: Seq<u8>, ts: DosTimestamp, force: bool)
    -> (r: (Seq<u8>, int))
    requires
        d.len() == 65536,
        write_spec(d, name, data, ts, force) is Ok,
    ensures
        ({
            let (och, s) = r;
            &&& replaced_chain(d, name) == Ok::<Seq<u8>, ChainFault>(och)
            &&& (d[dir_off(s)] == 0 || d[dir_off(s)] == DELETED || entry_at(d, s).name == name)
            &&& valid_chain(d, och)
            &&& clusters_needed(data.len() as int) <= available(d, och)
            &&& 0 <= s < 48
            &&& write_spec(d, name, data, ts, force) == Ok::<(Seq<u8>, EntryView), Fault>(
                write_image(d, och, s, name, data, ts),
            )
            &&& forall|t: int|
                0 <= t < s ==> #[trigger] d[dir_off(t)] != 0 && (d[dir_off(t)] != DELETED
                    ==> entry_at(d, t).name != name)
        }),
{
    lemma_find_entry(d, name);
    lemma_find_prefix(d, name, 0);
    let och = replaced_chain(d, name)->Ok_0;
    if let Some(e) = find_spec(d, name) {
        lemma_chain_valid(d, e);
    } else {
        lemma_free_slot_prefix(d, name, 0);
    }
    let s = target_slot(d, name)->0;
    (och, s)
}

/// A file written to a formatted side reads back as exactly the bytes written, and the
/// side stays formatted.
pub proof fn lemma_write_then_read(d: Seq<u8>, name: Seq<u8>, data: Seq<u8>, ts: DosTimestamp, force: bool)
    requires
        formatted(d),
        write_spec(d, name, data, ts, force) is Ok,
    ensures
        ({
            let (img, ev) = write_spec(d, name, data, ts, force)->Ok_0;
            formatted(img) && read_spec(img, ev) == Ok::<Seq<u8>, ChainFault>(data)
        }),
{
    let (och, s) = lemma_write_plan(d, name, data, ts, force);
    let (d2, cl) = lemma_image(d, och, s, name, data, ts);
    let (img, ev) = write_image(d, och, s, name, data, ts);
    let eb = entry_bytes(name, ev.time, ev.date, cl[0], ev.size);
    lemma_splice(d2, dir_off(s), eb);
    assert forall|j: int| 0 <= j < cl.len() implies fat(img, #[trigger] cl[j] as int) == next_of(cl, j) by {
        assert(img[512 + cl[j]] == d2[512 + cl[j]]);
    }
    assert forall|i: int| 0 <= i < cl.len() implies sector(img, #[trigger] cl[i]) == chunk(data, i) by {
        assert(sector(img, cl[i]) =~= sector(d2, cl[i]));
    }
    lemma_chain_walk(img, cl, 0);
    assert(cl.take(0) =~= Seq::<u8>::empty());
    assert(chain_spec(img, ev) == Ok::<Seq<u8>, ChainFault>(cl));
    lemma_sectors_padded(img, cl, data, cl.len() as int);
    assert(cl.take(cl.len() as int) =~= cl);
    lemma_clusters_cover(data.len() as int, cl.len() as int);
    assert(padded(data, 512 * cl.len() as int).take(ev.size as int) =~= data);
    assert(img[512] == d2[512]);
}

/// Right after a write to a formatted side, looking the name up finds the new entry. A
/// stored name never starts with `00` (end of directory) or `E5` (deleted).
pub proof fn lemma_write_then_find(d: Seq<u8>, name: Seq<u8>, data: Seq<u8>, ts: DosTimestamp, force: bool)
    requires
        formatted(d),
        name.len() == 11,
        name[0] != 0,
        name[0] != DELETED,
        write_spec(d, name, data, ts, force) is Ok,
    ensures
        ({
            let (img, ev) = write_spec(d, name, data, ts, force)->Ok_0;
            find_spec(img, name) == Some(ev)
        }),
{
    let (och, s) = lemma_write_plan(d, name, data, ts, force);
    let (d2, cl) = lemma_image(d, och, s, name, data, ts);
    let (img, ev) = write_image(d, och, s, name, data, ts);
    let eb = entry_bytes(name, ev.time, ev.date, cl[0], ev.size);
    lemma_splice(d2, dir_off(s), eb);
    let o = dir_off(s);
    assert(img.subrange(o, o + 11) =~= name);
    lemma_le_bytes(ev.time, ev.size);
    lemma_le_bytes(ev.date, ev.size);
    assert(img[o + 0x16] == eb[0x16] && img[o + 0x17] == eb[0x17]);
    assert(img[o + 0x18] == eb[0x18] && img[o + 0x19] == eb[0x19]);
    assert(img[o + 0x1C] == eb[0x1C] && img[o + 0x1D] == eb[0x1D]);
    assert(img[o + 0x1E] == eb[0x1E] && img[o + 0x1F] == eb[0x1F]);
    assert(img[o + 0x0B] == eb[0x0B] && img[o + 0x1A] == eb[0x1A]);
    assert(entry_at(img, s) == ev);
    assert(img[o] == name[0]);
    assert forall|k: int| 1536 <= k < 3072 && !(dir_off(s) <= k < dir_off(s) + 32) implies #[trigger] img[k]
        == d[k] by {
        assert(img[k] == d2[k]);
    }
    lemma_find_reaches(img, d, s, ev, name, 0);
}

/// The entries of `es` not stored in slot `s`, in order.
pub open spec fn without_slot(es: Seq<EntryView>, s: int) -> Seq<EntryView>
    decreases es.len(),
{
    if es.len() == 0 {
        Seq::empty()
    } else {
        (if es[0].slot == s {
            Seq::empty()
        } else {
            seq![es[0]]
        }) + without_slot(es.drop_first(), s)
    }
}

proof fn lemma_without_absent(es: Seq<EntryView>, s: int)
    requires
        forall|i: int| 0 <= i < es.len() ==> #[trigger] es[i].slot != s,
    ensures
        without_slot(es, s) == es,
    decreases es.len(),
{
    if es.len() > 0 {
        lemma_without_absent(es.drop_first(), s);
        assert(es =~= seq![es[0]] + es.drop_first());
    }
}

/// Listing after marking slot `s` deleted in a directory otherwise equal to `d`'s.
proof fn lemma_list_after_delete(img: Seq<u8>, d: Seq<u8>, s: int, from: int)
    requires
        img.len() == 65536,
        d.len() == 65536,
        0 <= from,
        0 <= s < 48,
        same_dir_but(img, d, s),
        img[dir_off(s)] == DELETED,
        d[dir_off(s)] != 0,
        from <= s ==> forall|t: int| from <= t <= s ==> #[trigger] d[dir_off(t)] != 0 || t > s,
    ensures
        list_from(img, from) == without_slot(list_from(d, from), s),
    decreases 48 - from,
{
    if from < 48 {
        lemma_list_after_delete(img, d, s, from + 1);
        lemma_list_from(d, from + 1);
        let ld = list_from(d, from);
        if from == s {
            if d[dir_off(from)] != DELETED {
                assert(ld == seq![entry_at(d, from)] + list_from(d, from + 1));
                assert(ld.drop_first() =~= list_from(d, from + 1));
            }
            lemma_without_absent(list_from(d, from + 1), s);
        } else {
            lemma_entry_at_same(img, d, s, from);
            if d[dir_off(from)] != 0 && d[dir_off(from)] != DELETED {
                assert(ld == seq![entry_at(d, from)] + list_from(d, from + 1));
                assert(ld.drop_first() =~= list_from(d, from + 1));
                assert(ld[0].slot == from);
            } else if d[dir_off(from)] == 0 {
                assert(from > s);
            }
        }
    }
}

/// Deleting a listed entry of a formatted side removes just that entry from the listing,
/// frees exactly the clusters of its chain, and leaves the side formatted.
pub proof fn lemma_delete_then_list(d: Seq<u8>, e: EntryView, force: bool)
    requires
        formatted(d),
        list_spec(d).contains(e),
        delete_spec(d, e, force) is Ok,
    ensures
        ({
            let img = delete_spec(d, e, force)->Ok_0;
            &&& formatted(img)
            &&& list_spec(img) == without_slot(list_spec(d), e.slot)
            &&& free_count(img, 122) == free_count(d, 122) + chain_spec(d, e)->Ok_0.len()
        }),
{
    lemma_list_from(d, 0);
    let i = choose|i: int| 0 <= i < list_spec(d).len() && list_spec(d)[i] == e;
    assert(list_from(d, 0)[i] == e);
    let s = e.slot;
    let ch = chain_spec(d, e)->Ok_0;
    lemma_chain_valid(d, e);
    lemma_free_chain(d, ch);
    lemma_free_count_chain(d, ch);
    let d1 = free_chain(d, ch);
    let img = d1.update(dir_off(s), DELETED);
    assert forall|k: int| 1536 <= k < 3072 && !(dir_off(s) <= k < dir_off(s) + 32) implies #[trigger] img[k]
        == d[k] by {
        assert(img[k] == d1[k]);
    }
    lemma_free_slot_used(d, s);
    lemma_list_after_delete(img, d, s, 0);
    assert(free_count(img, 122) == free_count(d1, 122)) by {
        lemma_free_count_frame(d1, img, 122);
    }
}

/// What is left after removing slot `s` was in the list, with another slot.
proof fn lemma_without_member(es: Seq<EntryView>, s: int, x: EntryView)
    requires
        without_slot(es, s).contains(x),
    ensures
        es.contains(x),
        x.slot != s,
    decreases es.len(),
{
    if es.len() > 0 {
        let head: Seq<EntryView> = if es[0].slot == s {
            Seq::empty()
        } else {
            seq![es[0]]
        };
        let w = without_slot(es, s);
        let rest = without_slot(es.drop_first(), s);
        let i = choose|i: int| 0 <= i < w.len() && w[i] == x;
        if i < head.len() {
            assert(w[i] == es[0]);
            assert(es[0] == x);
        } else {
            assert(w[i] == rest[i - head.len()]);
            assert(rest.contains(x));
            lemma_without_member(es.drop_first(), s, x);
            let j = choose|j: int| 0 <= j < es.drop_first().len() && es.drop_first()[j] == x;
            assert(es[j + 1] == x);
        }
    }
}

/// `find_in` finds nothing where no entry carries the name.
proof fn lemma_find_none(es: Seq<EntryView>, name: Seq<u8>)
    requires
        forall|i: int| 0 <= i < es.len() ==> (#[trigger] es[i]).name != name,
    ensures
        find_in(es, name) is None,
    decreases es.len(),
{
    if es.len() > 0 {
        assert forall|i: int| 0 <= i < es.drop_first().len() implies (#[trigger] es.drop_first()[i]).name != name by {
            assert(es.drop_first()[i] == es[i + 1]);
        }
        lemma_find_none(es.drop_first(), name);
    }
}

/// After a listed file is deleted from a side whose listed names are distinct, its name
/// is no longer found.
pub proof fn lemma_delete_then_find(d: Seq<u8>, e: EntryView, force: bool)
    requires
        formatted(d),
        list_spec(d).contains(e),
        delete_spec(d, e, force) is Ok,
        forall|i: int, j: int|
            0 <= i < j < list_spec(d).len() ==> (#[trigger] list_spec(d)[i]).name != (#[trigger] list_spec(d)[j]).name,
    ensures
        find_spec(delete_spec(d, e, force)->Ok_0, e.name) is None,
{
    let img = delete_spec(d, e, force)->Ok_0;
    lemma_delete_then_list(d, e, force);
    let es = list_spec(d);
    let w = without_slot(es, e.slot);
    let k = choose|k: int| 0 <= k < es.len() && es[k] == e;
    assert forall|i: int| 0 <= i < w.len() implies (#[trigger] w[i]).name != e.name by {
        let x = w[i];
        assert(w.contains(x));
        lemma_without_member(es, e.slot, x);
        let j = choose|j: int| 0 <= j < es.len() && es[j] == x;
        if x.name == e.name {
            if j < k {
                assert(es[j].name != es[k].name);
            } else if k < j {
                assert(es[k].name != es[j].name);
            }
        }
    }
    lemma_find_none(w, e.name);
}

/// How many of the clusters `cl` are at most `n`.
pub open spec fn count_le(cl: Seq<u8>, n: int) -> nat
    decreases cl.len(),
{
    if cl.len() == 0 {
        0
    } else {
        count_le(cl.drop_last(), n) + if cl.last() <= n {
            1nat
        } else {
            0nat
        }
    }
}

proof fn lemma_count_step(cl: Seq<u8>, n: int)
    requires
        increasing_clusters(cl),
        1 <= n <= 122,
    ensures
        count_le(cl, n) == count_le(cl, n - 1) + if cl.contains(n as u8) {
            1int
        } else {
            0int
        },
    decreases cl.len(),
{
    if cl.len() > 0 {
        let p = cl.drop_last();
        let m = cl.last();
        assert(increasing_clusters(p)) by {
            assert forall|i: int| 0 <= i < p.len() implies 1 <= #[trigger] p[i] <= 122 by {
                assert(p[i] == cl[i]);
            }
            assert forall|i: int, j: int| 0 <= i < j < p.len() implies #[trigger] p[i] < #[trigger] p[j] by {
                assert(p[i] == cl[i] && p[j] == cl[j]);
            }
        }
        lemma_count_step(p, n);
        assert(cl[cl.len() - 1] == m);
        assert(cl.contains(n as u8) == (p.contains(n as u8) || m == n as u8)) by {
            if cl.contains(n as u8) {
                let i = choose|i: int| 0 <= i < cl.len() && cl[i] == n as u8;
                if i < cl.len() - 1 {
                    assert(p[i] == cl[i]);
                }
            }
            if p.contains(n as u8) {
                let i = choose|i: int| 0 <= i < p.len() && p[i] == n as u8;
                assert(cl[i] == p[i]);
            }
        }
        if p.contains(n as u8) && m == n as u8 {
            let i = choose|i: int| 0 <= i < p.len() && p[i] == n as u8;
            assert(cl[i] < cl[cl.len() - 1]);
        }
    }
}

proof fn lemma_count_ends(cl: Seq<u8>)
    requires
        increasing_clusters(cl),
    ensures
        count_le(cl, 0) == 0,
        count_le(cl, 122) == cl.len(),
    decreases cl.len(),
{
    if cl.len() > 0 {
        let p = cl.drop_last();
        assert(increasing_clusters(p)) by {
            assert forall|i: int| 0 <= i < p.len() implies 1 <= #[trigger] p[i] <= 122 by {
                assert(p[i] == cl[i]);
            }
            assert forall|i: int, j: int| 0 <= i < j < p.len() implies #[trigger] p[i] < #[trigger] p[j] by {
                assert(p[i] == cl[i] && p[j] == cl[j]);
            }
        }
        assert(1 <= cl[cl.len() - 1] <= 122);
        lemma_count_ends(p);
    }
}

/// Taking the free clusters `cl` into use removes exactly them from the free count.
proof fn lemma_free_count_alloc(x: Seq<u8>, y: Seq<u8>, cl: Seq<u8>, n: int)
    requires
        0 <= n <= 122,
        increasing_clusters(cl),
        forall|c: u8| 1 <= c <= 122 && #[trigger] cl.contains(c) ==> fat(x, c as int) == 0 && fat(y, c as int) != 0,
        forall|c: u8| 1 <= c <= 122 && !cl.contains(c) ==> #[trigger] fat(y, c as int) == fat(x, c as int),
    ensures
        free_count(x, n) == free_count(y, n) + count_le(cl, n),
    decreases n,
{
    if n == 0 {
        lemma_count_ends(cl);
    } else {
        lemma_free_count_alloc(x, y, cl, n - 1);
        lemma_count_step(cl, n);
        let c = n as u8;
        assert(c as int == n);
        if cl.contains(c) {
            assert(fat(x, c as int) == 0 && fat(y, c as int) != 0);
        } else {
            assert(fat(y, c as int) == fat(x, c as int));
        }
    }
}

/// A write leaves the free clusters of the side, plus those of the file it replaced, less
/// the clusters the new file takes: as many as its bytes need, and at least one.
pub proof fn lemma_write_free_count(d: Seq<u8>, name: Seq<u8>, data: Seq<u8>, ts: DosTimestamp, force: bool)
    requires
        formatted(d),
        write_spec(d, name, data, ts, force) is Ok,
    ensures
        free_count(write_spec(d, name, data, ts, force)->Ok_0.0, 122) + clusters_needed(data.len() as int)
            == free_count(d, 122) + replaced_chain(d, name)->Ok_0.len(),
{
    let (och, s) = lemma_write_plan(d, name, data, ts, force);
    let (d2r, clr) = lemma_image(d, och, s, name, data, ts);
    let (img, ev) = write_image(d, och, s, name, data, ts);
    let d1 = free_chain(d, och);
    let needed = clusters_needed(data.len() as int);
    lemma_allocation(d, och, data.len() as int);
    lemma_free_chain(d, och);
    lemma_free_count_chain(d, och);
    let cl = allocation(d1, data.len() as int);
    lemma_store(d1, cl, data, needed);
    let d2 = store(d1, cl, data, needed);
    assert(cl.take(needed) =~= cl);
    lemma_free_below(d1, 123);
    lemma_splice(d2, dir_off(s), entry_bytes(name, ev.time, ev.date, cl[0], ev.size));
    assert forall|c: u8| 1 <= c <= 122 && #[trigger] cl.contains(c) implies fat(d1, c as int) == 0 && fat(
        img,
        c as int,
    ) != 0 by {
        let i = choose|i: int| 0 <= i < cl.len() && cl[i] == c;
        assert(free_below(d1, 123)[i] == cl[i]);
        assert(fat(img, c as int) == fat(d2, c as int));
        assert(fat(d2, cl[i] as int) == next_of(cl, i));
        if i + 1 < cl.len() {
            assert(1 <= cl[i + 1]);
        }
    }
    assert forall|c: u8| 1 <= c <= 122 && !cl.contains(c) implies #[trigger] fat(img, c as int) == fat(
        d1,
        c as int,
    ) by {
        assert(fat(img, c as int) == fat(d2, c as int));
    }
    lemma_free_count_alloc(d1, img, cl, 122);
    lemma_count_ends(cl);
    assert(write_spec(d, name, data, ts, force)->Ok_0.0 == img);
    assert(cl.len() == needed);
}

/// The FAT's copy (at `0x400`) equals the FAT (at `0x200`).
pub open spec fn fat_mirrored(d: Seq<u8>) -> bool {
    forall|c: int| 0 <= c < 123 ==> #[trigger] d[512 + c] == d[1024 + c]
}

proof fn lemma_set_fat_mirror(d: Seq<u8>, c: u8, v: u8)
    requires
        d.len() == 65536,
        fat_mirrored(d),
        1 <= c <= 122,
    ensures
        fat_mirrored(set_fat_spec(d, c, v)),
        set_fat_spec(d, c, v).len() == 65536,
        forall|k: int| 1536 <= k < 65536 ==> #[trigger] set_fat_spec(d, c, v)[k] == d[k],
{
    let e = set_fat_spec(d, c, v);
    assert forall|j: int| 0 <= j < 123 implies #[trigger] e[512 + j] == e[1024 + j] by {
        if j != c {
            assert(e[512 + j] == d[512 + j]);
            assert(e[1024 + j] == d[1024 + j]);
        }
    }
}

proof fn lemma_free_chain_mirror(d: Seq<u8>, ch: Seq<u8>)
    requires
        d.len() == 65536,
        fat_mirrored(d),
        forall|i: int| 0 <= i < ch.len() ==> 1 <= #[trigger] ch[i] <= 122,
    ensures
        fat_mirrored(free_chain(d, ch)),
        free_chain(d, ch).len() == 65536,
    decreases ch.len(),
{
    if ch.len() > 0 {
        lemma_free_chain_mirror(d, ch.drop_last());
        assert(1 <= ch[ch.len() - 1] <= 122);
        lemma_set_fat_mirror(free_chain(d, ch.drop_last()), ch.last(), 0);
    }
}

proof fn lemma_store_mirror(d: Seq<u8>, cl: Seq<u8>, data: Seq<u8>, n: int)
    requires
        d.len() == 65536,
        fat_mirrored(d),
        0 <= n <= cl.len(),
        increasing_clusters(cl),
    ensures
        fat_mirrored(store(d, cl, data, n)),
        store(d, cl, data, n).len() == 65536,
    decreases n,
{
    if n > 0 {
        lemma_store_mirror(d, cl, data, n - 1);
        let prev = store(d, cl, data, n - 1);
        let c = cl[n - 1];
        lemma_set_fat_mirror(prev, c, next_of(cl, n - 1));
        let e = set_fat_spec(prev, c, next_of(cl, n - 1));
        lemma_splice(e, cluster_off(c as int), chunk(data, n - 1));
        let f = store(d, cl, data, n);
        assert forall|j: int| 0 <= j < 123 implies #[trigger] f[512 + j] == f[1024 + j] by {
            assert(f[512 + j] == e[512 + j]);
            assert(f[1024 + j] == e[1024 + j]);
        }
    }
}

/// A write to a side whose FAT copy equals its FAT keeps the two equal.
pub proof fn lemma_write_mirrors_fat(d: Seq<u8>, name: Seq<u8>, data: Seq<u8>, ts: DosTimestamp, force: bool)
    requires
        formatted(d),
        fat_mirrored(d),
        write_spec(d, name, data, ts, force) is Ok,
    ensures
        fat_mirrored(write_spec(d, name, data, ts, force)->Ok_0.0),
{
    let (och, s) = lemma_write_plan(d, name, data, ts, force);
    let (img, ev) = write_image(d, och, s, name, data, ts);
    let d1 = free_chain(d, och);
    let needed = clusters_needed(data.len() as int);
    lemma_allocation(d, och, data.len() as int);
    lemma_free_chain_mirror(d, och);
    let cl = allocation(d1, data.len() as int);
    lemma_store_mirror(d1, cl, data, needed);
    let d2 = store(d1, cl, data, needed);
    lemma_splice(d2, dir_off(s), entry_bytes(name, ev.time, ev.date, cl[0], ev.size));
    assert forall|j: int| 0 <= j < 123 implies #[trigger] img[512 + j] == img[1024 + j] by {
        assert(img[512 + j] == d2[512 + j]);
        assert(img[1024 + j] == d2[1024 + j]);
    }
}

/// A delete on a side whose FAT copy equals its FAT keeps the two equal.
pub proof fn lemma_delete_mirrors_fat(d: Seq<u8>, e: EntryView, force: bool)
    requires
        formatted(d),
        fat_mirrored(d),
        0 <= e.slot < 48,
        delete_spec(d, e, force) is Ok,
    ensures
        fat_mirrored(delete_spec(d, e, force)->Ok_0),
{
    let ch = chain_spec(d, e)->Ok_0;
    lemma_chain_valid(d, e);
    lemma_free_chain_mirror(d, ch);
    let d1 = free_chain(d, ch);
    let img = d1.update(dir_off(e.slot), DELETED);
    assert forall|j: int| 0 <= j < 123 implies #[trigger] img[512 + j] == img[1024 + j] by {
        assert(img[512 + j] == d1[512 + j]);
        assert(img[1024 + j] == d1[1024 + j]);
    }
}

/// A used slot `t` with no unused slot from `from` up to it is listed.
proof fn lemma_list_contains(d: Seq<u8>, from: int, t: int)
    requires
        0 <= from <= t < 48,
        forall|u: int| from <= u <= t ==> #[trigger] d[dir_off(u)] != 0,
        d[dir_off(t)] != DELETED,
    ensures
        list_from(d, from).contains(entry_at(d, t)),
    decreases t - from,
{
    let l = list_from(d, from);
    assert(d[dir_off(from)] != 0);
    if from == t {
        assert(l[0] == entry_at(d, t));
    } else {
        lemma_list_contains(d, from + 1, t);
        let r = list_from(d, from + 1);
        let i = choose|i: int| 0 <= i < r.len() && r[i] == entry_at(d, t);
        if d[dir_off(from)] == DELETED {
            assert(l == r);
        } else {
            assert(l == seq![entry_at(d, from)] + r);
            assert(l[i + 1] == r[i]);
        }
    }
}

/// A write keeps every other listed file listed as it was: a file not named as the one
/// written stays in the listing, unchanged.
pub proof fn lemma_write_keeps_others(d: Seq<u8>, name: Seq<u8>, data: Seq<u8>, ts: DosTimestamp, force: bool)
    requires
        formatted(d),
        name.len() == 11,
        name[0] != 0,
        name[0] != DELETED,
        write_spec(d, name, data, ts, force) is Ok,
    ensures
        forall|x: EntryView|
            #[trigger] list_spec(d).contains(x) && x.name != name ==> list_spec(
                write_spec(d, name, data, ts, force)->Ok_0.0,
            ).contains(x),
{
    let (och, s) = lemma_write_plan(d, name, data, ts, force);
    let (d2, cl) = lemma_image(d, och, s, name, data, ts);
    let (img, ev) = write_image(d, och, s, name, data, ts);
    let eb = entry_bytes(name, ev.time, ev.date, cl[0], ev.size);
    lemma_splice(d2, dir_off(s), eb);
    assert(same_dir_but(img, d, s)) by {
        assert forall|k: int| 1536 <= k < 3072 && !(dir_off(s) <= k < dir_off(s) + 32) implies #[trigger] img[k]
            == d[k] by {
            assert(img[k] == d2[k]);
        }
    }
    assert(img[dir_off(s)] == name[0]);
    assert(img.len() == 65536);
    lemma_list_from(d, 0);
    assert forall|x: EntryView| #[trigger] list_spec(d).contains(x) && x.name != name implies list_spec(
        img,
    ).contains(x) by {
        let i = choose|i: int| 0 <= i < list_spec(d).len() && list_spec(d)[i] == x;
        let t = x.slot;
        assert(list_from(d, 0)[i] == x);
        lemma_list_reaches(d, 0, t);
        assert(t != s);
        assert forall|u: int| 0 <= u <= t implies #[trigger] img[dir_off(u)] != 0 by {
            if u != s {
                lemma_entry_at_same(img, d, s, u);
            }
        }
        lemma_entry_at_same(img, d, s, t);
        lemma_list_contains(img, 0, t);
    }
}

/// Before a listed slot, no slot is unused.
proof fn lemma_free_slot_used(d: Seq<u8>, s: int)
    requires
        0 <= s < 48,
        d[dir_off(s)] != 0,
        exists|i: int| 0 <= i < list_from(d, 0).len() && #[trigger] list_from(d, 0)[i].slot == s,
    ensures
        forall|t: int| 0 <= t <= s ==> #[trigger] d[dir_off(t)] != 0,
{
    lemma_list_reaches(d, 0, s);
}

/// A slot the listing from `from` reaches has no unused slot before it.
proof fn lemma_list_reaches(d: Seq<u8>, from: int, s: int)
    requires
        0 <= from,
        exists|i: int| 0 <= i < list_from(d, from).len() && #[trigger] list_from(d, from)[i].slot == s,
    ensures
        forall|t: int| from <= t <= s ==> #[trigger] d[dir_off(t)] != 0,
    decreases 48 - from,
{
    lemma_list_from(d, from);
    let i = choose|i: int| 0 <= i < list_from(d, from).len() && #[trigger] list_from(d, from)[i].slot == s;
    if from < 48 && d[dir_off(from)] != 0 {
        let l = list_from(d, from);
        if d[dir_off(from)] == DELETED {
            assert(l == list_from(d, from + 1));
            assert(list_from(d, from + 1)[i].slot == s);
            lemma_list_reaches(d, from + 1, s);
        } else {
            assert(l == seq![entry_at(d, from)] + list_from(d, from + 1));
            if i > 0 {
                assert(list_from(d, from + 1)[i - 1] == l[i]);
                lemma_list_reaches(d, from + 1, s);
            }
        }
        assert forall|t: int| from <= t <= s implies #[trigger] d[dir_off(t)] != 0 by {
            if t > from {
                assert(from + 1 <= t);
            }
        }
    }
}

/// The free count looks only at the FAT.
proof fn lemma_free_count_frame(a: Seq<u8>, b: Seq<u8>, n: int)
    requires
        0 <= n <= 122,
        forall|k: int| 513 <= k <= 634 ==> #[trigger] a[k] == b[k],
    ensures
        free_count(a, n) == free_count(b, n),
    decreases n,
{
    if n > 0 {
        lemma_free_count_frame(a, b, n - 1);
        assert(a[512 + n] == b[512 + n]);
    }
}

} // verus!

