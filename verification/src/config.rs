//! Per-user defaults for `get`/`put`: `key = value` lines, `#` comments and blank lines
//! ignored, lines without `=` ignored (the file is meant to be forgiving). Entries are
//! kept sorted by key, each key once, as the file is written back in that order.

use vstd::prelude::*;

use crate::bcd::{trim_bounds, trim_ws};
use crate::bcd::{is_ws, trim_end_ws, trim_start_ws};
use crate::detect::{lines_spec, segments, split_lines, sub_chars};
use crate::floppy_image::yaml::chars_eq;
use crate::textbuf;

verus! {

/// The *directory* holding the `pc1600emul` pseudo-terminal socket, used when no port
/// is given; the socket file in it is always [`PC1600EMUL_SOCKET_FILENAME`].
pub const KEY_PC1600EMUL_PORT: &'static str = "pc1600emul.port";

/// Fixed file name of the emulator's pseudo-terminal socket within that directory.
pub const PC1600EMUL_SOCKET_FILENAME: &'static str = "calcu1600.serial";

/// Directory used for the emulator socket when [`KEY_PC1600EMUL_PORT`] is not set.
pub const DEFAULT_PC1600EMUL_DIR: &'static str = "/tmp";

/// Default verbosity (`"true"` / `"false"`) when neither `-v` nor `-q` is given.
pub const KEY_VERBOSE: &'static str = "verbose";

/// `a` sorts before `b` (code point by code point, a prefix first), as `String` keys
/// are ordered.
pub open spec fn key_lt(a: Seq<char>, b: Seq<char>) -> bool
    decreases a.len(),
{
    if a.len() == 0 {
        b.len() > 0
    } else if b.len() == 0 {
        false
    } else if a[0] != b[0] {
        a[0] < b[0]
    } else {
        key_lt(a.drop_first(), b.drop_first())
    }
}

pub type Entries = Seq<(Seq<char>, Seq<char>)>;

/// Keys strictly increasing.
pub open spec fn sorted(es: Entries) -> bool {
    forall|i: int, j: int| 0 <= i < j < es.len() ==> key_lt(#[trigger] es[i].0, #[trigger] es[j].0)
}

/// `es` with `key` set to `value`: replaced where the key is, else inserted in key order.
pub open spec fn insert_entry(es: Entries, key: Seq<char>, value: Seq<char>) -> Entries
    decreases es.len(),
{
    if es.len() == 0 {
        seq![(key, value)]
    } else if es.last().0 == key {
        es.drop_last().push((key, value))
    } else if key_lt(es.last().0, key) {
        es.push((key, value))
    } else {
        insert_entry(es.drop_last(), key, value).push(es.last())
    }
}

/// The value of the first entry with `key`.
pub open spec fn lookup(es: Entries, key: Seq<char>) -> Option<Seq<char>>
    decreases es.len(),
{
    if es.len() == 0 {
        None
    } else if es[0].0 == key {
        Some(es[0].1)
    } else {
        lookup(es.drop_first(), key)
    }
}

/// Index of the first `=` of `s` from `i` on.
pub open spec fn eq_index(s: Seq<char>, i: int) -> Option<int>
    decreases s.len() - i,
{
    if i < 0 || i >= s.len() {
        None
    } else if s[i] == '=' {
        Some(i)
    } else {
        eq_index(s, i + 1)
    }
}

/// One line read into the entries so far.
pub open spec fn read_line(acc: Entries, line: Seq<char>) -> Entries {
    let t = trim_ws(line);
    if t.len() == 0 || t[0] == '#' {
        acc
    } else {
        match eq_index(t, 0) {
            None => acc,
            Some(i) => insert_entry(acc, trim_ws(t.take(i)), trim_ws(t.skip(i + 1))),
        }
    }
}

/// The lines read in order.
pub open spec fn read_lines(ls: Seq<Seq<char>>) -> Entries
    decreases ls.len(),
{
    if ls.len() == 0 {
        Seq::empty()
    } else {
        read_line(read_lines(ls.drop_last()), ls.last())
    }
}

/// Reading a config file.
pub open spec fn parse_spec(text: Seq<char>) -> Entries {
    read_lines(lines_spec(text))
}

/// One entry as a line.
pub open spec fn entry_line(e: (Seq<char>, Seq<char>)) -> Seq<char> {
    e.0 + seq![' ', '=', ' '] + e.1
}

/// The entries as the file's text.
pub open spec fn format_spec(es: Entries) -> Seq<char>
    decreases es.len(),
{
    if es.len() == 0 {
        Seq::empty()
    } else {
        format_spec(es.drop_last()) + entry_line(es.last()) + seq!['\n']
    }
}

/// Settings, sorted by key.
pub struct Config {
    entries: Vec<(String, String)>,
}

impl View for Config {
    type V = Entries;

    closed spec fn view(&self) -> Entries {
        Seq::new(self.entries@.len(), |i: int| (self.entries@[i].0@, self.entries@[i].1@))
    }
}

impl Config {
    /// Keys strictly increasing.
    pub closed spec fn wf(&self) -> bool {
        sorted(self@)
    }

    /// No settings.
    pub fn new() -> (c: Config)
        ensures
            c@ == Seq::<(Seq<char>, Seq<char>)>::empty(),
            c.wf(),
    {
        let c = Config { entries: Vec::new() };
        assert(c@ =~= Seq::<(Seq<char>, Seq<char>)>::empty());
        c
    }

    /// Number of settings.
    pub fn len(&self) -> (n: usize)
        ensures
            n == self@.len(),
    {
        self.entries.len()
    }

    /// The value of `key`.
    pub fn get(&self, key: &str) -> (r: Option<&str>)
        ensures
            match r {
                Some(v) => lookup(self@, key@) == Some(v@),
                None => lookup(self@, key@) is None,
            },
    {
        let ghost es = self@;
        let k = textbuf::chars_of(key);
        let mut i: usize = 0;
        assert(es.skip(0) =~= es);
        while i < self.entries.len()
            invariant
                i <= self.entries@.len() == es.len(),
                es == self@,
                k@ == key@,
                lookup(es, key@) == lookup(es.skip(i as int), key@),
            decreases self.entries@.len() - i,
        {
            assert(es.skip(i as int)[0] == es[i as int]);
            assert(es.skip(i as int).drop_first() =~= es.skip(i + 1));
            let ek = textbuf::chars_of(self.entries[i].0.as_str());
            if chars_eq(&ek, &k) {
                return Some(self.entries[i].1.as_str());
            }
            i = i + 1;
        }
        None
    }

    /// Whether `verbose` is set to `"true"`; `None` if it is not set.
    pub fn verbose(&self) -> (r: Option<bool>)
        ensures
            r == match lookup(self@, KEY_VERBOSE@) {
                Some(v) => Some(v == "true"@),
                None => None::<bool>,
            },
    {
        match self.get(KEY_VERBOSE) {
            Some(v) => {
                let a = textbuf::chars_of(v);
                let b = textbuf::chars_of("true");
                Some(chars_eq(&a, &b))
            },
            None => None,
        }
    }

    /// Set `key = value`.
    pub fn insert(&mut self, key: &str, value: &str)
        requires
            old(self).wf(),
        ensures
            final(self)@ == insert_entry(old(self)@, key@, value@),
            final(self).wf(),
    {
        let ghost es = self@;
        let k = textbuf::chars_of(key);
        let mut j = self.entries.len();
        assert(es.take(j as int) =~= es);
        assert(es.skip(j as int) =~= Seq::<(Seq<char>, Seq<char>)>::empty());
        assert(insert_entry(es, key@, value@) =~= insert_entry(es.take(j as int), key@, value@) + es.skip(j as int));
        loop
            invariant
                j <= self.entries@.len(),
                es == self@,
                k@ == key@,
                insert_entry(es, key@, value@) == insert_entry(es.take(j as int), key@, value@) + es.skip(
                    j as int,
                ),
            ensures
                j <= self.entries@.len(),
                es == self@,
                k@ == key@,
                insert_entry(es, key@, value@) == insert_entry(es.take(j as int), key@, value@) + es.skip(
                    j as int,
                ),
                j == 0 || es[j - 1].0 == key@ || key_lt(es[j - 1].0, key@),
            decreases j,
        {
            if j == 0 {
                break ;
            }
            let ek = textbuf::chars_of(self.entries[j - 1].0.as_str());
            assert(es[j - 1].0 == self.entries@[j - 1].0@);
            let same = chars_eq(&ek, &k);
            let before = key_less(&ek, &k);
            assert(es.take(j as int).last() == es[j - 1]);
            assert(es.take(j as int).drop_last() =~= es.take(j - 1));
            if same || before {
                break ;
            }
            assert(es.take(j - 1) + seq![es[j - 1]] + es.skip(j as int) =~= es.take(j - 1) + es.skip(j - 1)) by {
                assert(es.skip(j - 1) =~= seq![es[j - 1]] + es.skip(j as int));
            }
            assert(insert_entry(es.take(j as int), key@, value@) =~= insert_entry(es.take(j - 1), key@, value@).push(
                es[j - 1],
            ));
            assert(insert_entry(es.take(j - 1), key@, value@).push(es[j - 1]) + es.skip(j as int)
                =~= insert_entry(es.take(j - 1), key@, value@) + es.skip(j - 1)) by {
                assert(es.skip(j - 1) =~= seq![es[j - 1]] + es.skip(j as int));
            }
            j = j - 1;
        }
        let replace = if j > 0 {
            let ek = textbuf::chars_of(self.entries[j - 1].0.as_str());
            assert(es[j - 1].0 == self.entries@[j - 1].0@);
            chars_eq(&ek, &k)
        } else {
            false
        };
        let ghost old_entries = self.entries@;
        if replace {
            self.entries.set(j - 1, (key.to_owned(), value.to_owned()));
            proof {
                assert(es.take(j as int).drop_last() =~= es.take(j - 1));
                assert(self@ =~= es.take(j - 1).push((key@, value@)) + es.skip(j as int));
            }
        } else {
            self.entries.insert(j, (key.to_owned(), value.to_owned()));
            proof {
                if j == 0 {
                    assert(es.take(0) =~= Seq::<(Seq<char>, Seq<char>)>::empty());
                }
                assert(self@ =~= es.take(j as int).push((key@, value@)) + es.skip(j as int));
            }
        }
        proof {
            lemma_insert_sorted(es, key@, value@);
        }
    }
}

proof fn lemma_key_lt_irrefl(a: Seq<char>)
    ensures
        !key_lt(a, a),
    decreases a.len(),
{
    if a.len() > 0 {
        lemma_key_lt_irrefl(a.drop_first());
    }
}

proof fn lemma_key_lt_trans(a: Seq<char>, b: Seq<char>, c: Seq<char>)
    requires
        key_lt(a, b),
        key_lt(b, c),
    ensures
        key_lt(a, c),
    decreases a.len(),
{
    if a.len() > 0 && b.len() > 0 && c.len() > 0 && a[0] == b[0] && b[0] == c[0] {
        lemma_key_lt_trans(a.drop_first(), b.drop_first(), c.drop_first());
    }
}

proof fn lemma_key_lt_total(a: Seq<char>, b: Seq<char>)
    requires
        a != b,
    ensures
        key_lt(a, b) || key_lt(b, a),
    decreases a.len(),
{
    if a.len() > 0 && b.len() > 0 && a[0] == b[0] {
        if a.drop_first() =~= b.drop_first() {
            assert(a =~= b) by {
                assert forall|i: int| 0 <= i < a.len() implies a[i] == b[i] by {
                    if i > 0 {
                        assert(a[i] == a.drop_first()[i - 1]);
                        assert(b[i] == b.drop_first()[i - 1]);
                    }
                }
            }
        } else {
            lemma_key_lt_total(a.drop_first(), b.drop_first());
        }
    } else if a.len() == 0 && b.len() == 0 {
        assert(a =~= b);
    }
}

/// Inserting keeps the keys sorted, and adds no key but `key`.
proof fn lemma_insert_sorted(es: Entries, key: Seq<char>, value: Seq<char>)
    requires
        sorted(es),
    ensures
        sorted(insert_entry(es, key, value)),
        forall|i: int|
            0 <= i < insert_entry(es, key, value).len() ==> (#[trigger] insert_entry(es, key, value)[i]).0
                == key || exists|j: int| 0 <= j < es.len() && es[j].0 == insert_entry(es, key, value)[i].0,
    decreases es.len(),
{
    let r = insert_entry(es, key, value);
    if es.len() == 0 {
    } else if es.last().0 == key {
        assert forall|i: int, j: int| 0 <= i < j < r.len() implies key_lt(#[trigger] r[i].0, #[trigger] r[j].0) by {
            if j == r.len() - 1 {
                assert(es[i] == r[i]);
                assert(key_lt(es[i].0, es[es.len() - 1].0));
            } else {
                assert(es[i] == r[i] && es[j] == r[j]);
            }
        }
        assert forall|i: int| 0 <= i < r.len() implies (#[trigger] r[i]).0 == key || exists|j: int|
            0 <= j < es.len() && es[j].0 == r[i].0 by {
            if i < r.len() - 1 {
                assert(es[i] == r[i]);
            }
        }
    } else if key_lt(es.last().0, key) {
        assert forall|i: int, j: int| 0 <= i < j < r.len() implies key_lt(#[trigger] r[i].0, #[trigger] r[j].0) by {
            if j == r.len() - 1 {
                if i < es.len() - 1 {
                    assert(key_lt(es[i].0, es[es.len() - 1].0));
                    lemma_key_lt_trans(es[i].0, es.last().0, key);
                }
            }
        }
        assert forall|i: int| 0 <= i < r.len() implies (#[trigger] r[i]).0 == key || exists|j: int|
            0 <= j < es.len() && es[j].0 == r[i].0 by {
            if i < r.len() - 1 {
                assert(es[i] == r[i]);
            }
        }
    } else {
        let d = es.drop_last();
        assert(sorted(d)) by {
            assert forall|i: int, j: int| 0 <= i < j < d.len() implies key_lt(#[trigger] d[i].0, #[trigger] d[j].0) by {
                assert(d[i] == es[i] && d[j] == es[j]);
            }
        }
        lemma_insert_sorted(d, key, value);
        let q = insert_entry(d, key, value);
        lemma_key_lt_total(es.last().0, key);
        assert forall|i: int| 0 <= i < q.len() implies key_lt(#[trigger] q[i].0, es.last().0) by {
            if q[i].0 != key {
                let j = choose|j: int| 0 <= j < d.len() && d[j].0 == q[i].0;
                assert(key_lt(es[j].0, es[es.len() - 1].0));
            }
        }
        assert forall|i: int, j: int| 0 <= i < j < r.len() implies key_lt(#[trigger] r[i].0, #[trigger] r[j].0) by {
            if j == r.len() - 1 {
                assert(r[i] == q[i]);
            } else {
                assert(r[i] == q[i] && r[j] == q[j]);
            }
        }
        assert forall|i: int| 0 <= i < r.len() implies (#[trigger] r[i]).0 == key || exists|j: int|
            0 <= j < es.len() && es[j].0 == r[i].0 by {
            if i < r.len() - 1 {
                assert(r[i] == q[i]);
                if q[i].0 != key {
                    let j = choose|j: int| 0 <= j < d.len() && d[j].0 == q[i].0;
                    assert(es[j] == d[j]);
                }
            } else {
                assert(es[es.len() - 1].0 == r[i].0);
            }
        }
    }
}

/// `a` sorts before `b`.
fn key_less(a: &Vec<char>, b: &Vec<char>) -> (r: bool)
    ensures
        r == key_lt(a@, b@),
{
    let mut i: usize = 0;
    assert(a@.skip(0) =~= a@);
    assert(b@.skip(0) =~= b@);
    while i < a.len() && i < b.len() && a[i] == b[i]
        invariant
            i <= a@.len(),
            i <= b@.len(),
            key_lt(a@, b@) == key_lt(a@.skip(i as int), b@.skip(i as int)),
        decreases a@.len() - i,
    {
        assert(a@.skip(i as int).drop_first() =~= a@.skip(i + 1));
        assert(b@.skip(i as int).drop_first() =~= b@.skip(i + 1));
        i = i + 1;
    }
    if i == a.len() {
        i < b.len()
    } else if i == b.len() {
        false
    } else {
        assert(a@.skip(i as int)[0] == a@[i as int]);
        assert(b@.skip(i as int)[0] == b@[i as int]);
        a[i] < b[i]
    }
}


/// Index of the first `=` of `s`.
fn eq_of(s: &Vec<char>) -> (r: Option<usize>)
    ensures
        match r {
            Some(i) => eq_index(s@, 0) == Some(i as int) && i < s@.len(),
            None => eq_index(s@, 0) is None,
        },
{
    let mut i: usize = 0;
    while i < s.len()
        invariant
            i <= s@.len(),
            eq_index(s@, 0) == eq_index(s@, i as int),
        decreases s@.len() - i,
    {
        if s[i] == '=' {
            return Some(i);
        }
        i = i + 1;
    }
    None
}

/// `cfg` with the line `line` read into it.
fn read_line_into(cfg: &mut Config, line: &Vec<char>)
    requires
        old(cfg).wf(),
    ensures
        final(cfg).wf(),
        final(cfg)@ == read_line(old(cfg)@, line@),
{
    let (a, b) = trim_bounds(line);
    let t = sub_chars(line, a, b);
    if t.len() == 0 || t[0] == '#' {
        return;
    }
    match eq_of(&t) {
        None => {},
        Some(i) => {
            let head = sub_chars(&t, 0, i);
            assert(head@ =~= t@.take(i as int));
            let tail = sub_chars(&t, i + 1, t.len());
            assert(tail@ =~= t@.skip(i + 1));
            let (ka, kb) = trim_bounds(&head);
            let (va, vb) = trim_bounds(&tail);
            let k = textbuf::string_of(&head.as_slice()[ka..kb]);
            let v = textbuf::string_of(&tail.as_slice()[va..vb]);
            cfg.insert(k.as_str(), v.as_str());
        },
    }
}

/// Read `key = value` lines; `#` comments, blank lines and lines without `=` are
/// skipped, and a later line for a key wins.
pub fn parse(text: &str) -> (cfg: Config)
    ensures
        cfg@ == parse_spec(text@),
        cfg.wf(),
{
    let chars = textbuf::chars_of(text);
    let lines = split_lines(&chars);
    let ghost ls = lines_spec(text@);
    let mut cfg = Config::new();
    let mut i: usize = 0;
    assert(ls.take(0) =~= Seq::<Seq<char>>::empty());
    while i < lines.len()
        invariant
            i <= lines@.len() == ls.len(),
            ls == lines_spec(text@),
            forall|k: int| 0 <= k < lines@.len() ==> (#[trigger] lines@[k])@ == ls[k],
            cfg.wf(),
            cfg@ == read_lines(ls.take(i as int)),
        decreases lines@.len() - i,
    {
        read_line_into(&mut cfg, &lines[i]);
        assert(ls.take(i + 1).drop_last() =~= ls.take(i as int));
        i = i + 1;
    }
    assert(ls.take(i as int) =~= ls);
    cfg
}

/// The settings as the file's text, one `key = value` line each, in key order.
pub fn format(cfg: &Config) -> (s: String)
    ensures
        s@ == format_spec(cfg@),
{
    let ghost es = cfg@;
    proof {
        reveal_strlit(" = ");
        assert(" = "@ =~= seq![' ', '=', ' ']);
    }
    let mut s = String::new();
    let mut i: usize = 0;
    assert(es.take(0) =~= Seq::<(Seq<char>, Seq<char>)>::empty());
    while i < cfg.entries.len()
        invariant
            i <= cfg.entries@.len() == es.len(),
            es == cfg@,
            " = "@ == seq![' ', '=', ' '],
            s@ == format_spec(es.take(i as int)),
        decreases cfg.entries@.len() - i,
    {
        textbuf::push_str(&mut s, cfg.entries[i].0.as_str());
        textbuf::push_str(&mut s, " = ");
        textbuf::push_str(&mut s, cfg.entries[i].1.as_str());
        textbuf::push_char(&mut s, '\n');
        assert(es.take(i + 1).drop_last() =~= es.take(i as int));
        assert(es[i as int] == (cfg.entries@[i as int].0@, cfg.entries@[i as int].1@));
        i = i + 1;
        assert(s@ =~= format_spec(es.take(i as int)));
    }
    assert(es.take(i as int) =~= es);
    s
}

/// The entries `entries` set in order, a later one for a key winning.
pub open spec fn insert_all(entries: Entries) -> Entries
    decreases entries.len(),
{
    if entries.len() == 0 {
        Seq::empty()
    } else {
        insert_entry(insert_all(entries.drop_last()), entries.last().0, entries.last().1)
    }
}

impl Config {
    /// Settings built from `entries`, without a file.
    pub fn from_entries_for_test(entries: Vec<(String, String)>) -> (cfg: Config)
        ensures
            cfg@ == insert_all(Seq::new(entries@.len(), |i: int| (entries@[i].0@, entries@[i].1@))),
            cfg.wf(),
    {
        let ghost all = Seq::new(entries@.len(), |i: int| (entries@[i].0@, entries@[i].1@));
        let mut cfg = Config::new();
        let mut i: usize = 0;
        assert(all.take(0) =~= Seq::<(Seq<char>, Seq<char>)>::empty());
        while i < entries.len()
            invariant
                i <= entries@.len() == all.len(),
                all == Seq::new(entries@.len(), |i: int| (entries@[i].0@, entries@[i].1@)),
                cfg.wf(),
                cfg@ == insert_all(all.take(i as int)),
            decreases entries@.len() - i,
        {
            cfg.insert(entries[i].0.as_str(), entries[i].1.as_str());
            assert(all.take(i + 1).drop_last() =~= all.take(i as int));
            i = i + 1;
        }
        assert(all.take(i as int) =~= all);
        cfg
    }
}


// ── writing, then reading back ───────────────────────────────────────────

/// An entry the file can hold as written: key and value without white space at their
/// ends and without a line break, the key without `=` and not starting with `#`.
pub open spec fn writable(e: (Seq<char>, Seq<char>)) -> bool {
    let (k, v) = e;
    &&& (k.len() == 0 || (!is_ws(k[0]) && !is_ws(k.last()) && k[0] != '#'))
    &&& (v.len() == 0 || (!is_ws(v[0]) && !is_ws(v.last())))
    &&& !k.contains('=')
    &&& !k.contains('\n')
    &&& !v.contains('\n')
}

proof fn lemma_segments_nonempty(t: Seq<char>, s: int, i: int)
    ensures
        segments(t, s, i).len() >= 1,
    decreases t.len() - i,
{
    if !(i >= t.len() || i < s || s < 0) {
        if t[i] == '\n' {
            lemma_segments_nonempty(t, i + 1, i + 1);
        } else {
            lemma_segments_nonempty(t, s, i + 1);
        }
    }
}

/// The pieces of `x + y` past `x` are the pieces of `y`.
proof fn lemma_segments_shift(x: Seq<char>, y: Seq<char>, s: int, i: int)
    requires
        x.len() <= s <= i <= x.len() + y.len(),
    ensures
        segments(x + y, s, i) == segments(y, s - x.len(), i - x.len()),
    decreases x.len() + y.len() - i,
{
    let t = x + y;
    let n = x.len() as int;
    if i >= t.len() {
        assert(t.subrange(s, t.len() as int) =~= y.subrange(s - n, y.len() as int));
    } else {
        assert(t[i] == y[i - n]);
        if t[i] == '\n' {
            assert(t.subrange(s, i) =~= y.subrange(s - n, i - n));
            lemma_segments_shift(x, y, i + 1, i + 1);
        } else {
            lemma_segments_shift(x, y, s, i + 1);
        }
    }
}

/// The pieces of `x + y`, `x` ending with a line break, are those of `x` but its last
/// (empty) one, then those of `y`.
proof fn lemma_segments_split(x: Seq<char>, y: Seq<char>, s: int, i: int)
    requires
        x.len() > 0,
        x.last() == '\n',
        0 <= s <= i <= x.len(),
        forall|j: int| s <= j < i ==> x[j] != '\n',
    ensures
        segments(x + y, s, i) == segments(x, s, i).drop_last() + segments(y, 0, 0),
    decreases x.len() - i,
{
    let t = x + y;
    let n = x.len() as int;
    if i == n {
        assert(s == n);
        lemma_segments_shift(x, y, n, n);
        assert(segments(x, s, i) =~= seq![x.subrange(n, n)]);
        assert(segments(x, s, i).drop_last() + segments(y, 0, 0) =~= segments(y, 0, 0));
    } else {
        assert(t[i] == x[i]);
        if x[i] == '\n' {
            lemma_segments_split(x, y, i + 1, i + 1);
            lemma_segments_nonempty(x, i + 1, i + 1);
            assert(t.subrange(s, i) =~= x.subrange(s, i));
            assert((seq![x.subrange(s, i)] + segments(x, i + 1, i + 1)).drop_last() =~= seq![x.subrange(s, i)]
                + segments(x, i + 1, i + 1).drop_last());
            assert(seq![x.subrange(s, i)] + (segments(x, i + 1, i + 1).drop_last() + segments(y, 0, 0))
                =~= seq![x.subrange(s, i)] + segments(x, i + 1, i + 1).drop_last() + segments(y, 0, 0));
        } else {
            lemma_segments_split(x, y, s, i + 1);
        }
    }
}

/// A line without a line break, then one, is that line and an empty piece.
proof fn lemma_segments_one_line(l: Seq<char>, i: int)
    requires
        0 <= i <= l.len(),
        !l.contains('\n'),
    ensures
        segments(l + seq!['\n'], 0, i) == seq![l, Seq::<char>::empty()],
    decreases l.len() - i,
{
    let t = l + seq!['\n'];
    if i == l.len() {
        assert(t[i] == '\n');
        assert(t.subrange(0, i) =~= l);
        assert(segments(t, i + 1, i + 1) =~= seq![t.subrange(i + 1, t.len() as int)]);
        assert(t.subrange(i + 1, t.len() as int) =~= Seq::<char>::empty());
        assert(seq![t.subrange(0, i)] + segments(t, i + 1, i + 1) =~= seq![l, Seq::<char>::empty()]);
    } else {
        assert(t[i] == l[i]);
        assert(l[i] != '\n');
        lemma_segments_one_line(l, i + 1);
    }
}

proof fn lemma_format_ends(es: Entries)
    ensures
        es.len() > 0 ==> format_spec(es).len() > 0 && format_spec(es).last() == '\n',
{
}

proof fn lemma_entry_line_one_line(e: (Seq<char>, Seq<char>))
    requires
        writable(e),
    ensures
        !entry_line(e).contains('\n'),
{
    let l = entry_line(e);
    let (k, v) = e;
    if l.contains('\n') {
        let j = choose|j: int| 0 <= j < l.len() && l[j] == '\n';
        if j < k.len() {
            assert(l[j] == k[j]);
            assert(k.contains('\n'));
        } else if j >= k.len() + 3 {
            assert(l[j] == v[j - k.len() - 3]);
            assert(v.contains('\n'));
        } else {
            assert(l[j] == seq![' ', '=', ' '][j - k.len()]);
        }
    }
}

/// The lines of the written text: one per entry, then an empty piece.
#[verifier::spinoff_prover]
#[verifier::rlimit(40)]
proof fn lemma_format_lines(es: Entries)
    requires
        forall|i: int| 0 <= i < es.len() ==> writable(#[trigger] es[i]),
    ensures
        lines_spec(format_spec(es)) == Seq::new(es.len(), |i: int| entry_line(es[i])).push(Seq::empty()),
    decreases es.len(),
{
    let ls = Seq::new(es.len(), |i: int| entry_line(es[i]));
    if es.len() == 0 {
        assert(Seq::<char>::empty().subrange(0, 0) =~= Seq::<char>::empty());
        assert(lines_spec(Seq::<char>::empty()) =~= seq![Seq::<char>::empty()]);
        assert(ls.push(Seq::empty()) =~= seq![Seq::<char>::empty()]);
    } else {
        let d = es.drop_last();
        assert forall|i: int| 0 <= i < d.len() implies writable(#[trigger] d[i]) by {
            assert(d[i] == es[i]);
        }
        lemma_format_lines(d);
        let l = entry_line(es.last());
        assert(writable(es[es.len() - 1]));
        lemma_entry_line_one_line(es.last());
        let f = format_spec(d);
        lemma_segments_one_line(l, 0);
        assert(format_spec(es) =~= f + (l + seq!['\n']));
        if d.len() == 0 {
            assert(f =~= Seq::<char>::empty());
            assert(f + (l + seq!['\n']) =~= l + seq!['\n']);
            assert(ls.push(Seq::empty()) =~= seq![l, Seq::<char>::empty()]);
        } else {
            lemma_format_ends(d);
            lemma_segments_split(f, l + seq!['\n'], 0, 0);
            let dl = Seq::new(d.len(), |i: int| entry_line(d[i]));
            assert(dl.push(Seq::empty()).drop_last() =~= dl);
            assert(ls.push(Seq::empty()) =~= dl + seq![l, Seq::<char>::empty()]);
        }
    }
}

proof fn lemma_eq_index_skip(t: Seq<char>, i: int, j: int)
    requires
        0 <= i <= j <= t.len(),
        forall|m: int| i <= m < j ==> t[m] != '=',
    ensures
        eq_index(t, i) == eq_index(t, j),
    decreases j - i,
{
    if i < j {
        lemma_eq_index_skip(t, i + 1, j);
    }
}

proof fn lemma_trim_space_end(x: Seq<char>)
    ensures
        trim_end_ws(x + seq![' ']) == trim_end_ws(x),
{
    assert((x + seq![' ']).drop_last() =~= x);
}

proof fn lemma_trim_space_start(x: Seq<char>)
    ensures
        trim_start_ws(seq![' '] + x) == trim_start_ws(x),
{
    assert((seq![' '] + x).drop_first() =~= x);
}

/// A written entry's line reads back as that entry.
proof fn lemma_read_entry_line(acc: Entries, e: (Seq<char>, Seq<char>))
    requires
        writable(e),
    ensures
        read_line(acc, entry_line(e)) == insert_entry(acc, e.0, e.1),
{
    let (k, v) = e;
    let l = entry_line(e);
    let t = trim_ws(l);
    if k.len() > 0 {
        assert(trim_start_ws(l) == l);
        let i = k.len() as int + 1;
        if v.len() > 0 {
            assert(l.last() == v.last());
            assert(t == l);
        } else {
            assert(l =~= (k + seq![' ', '=']) + seq![' ']);
            lemma_trim_space_end(k + seq![' ', '=']);
            assert(t =~= k + seq![' ', '=']);
        }
        assert(t[0] == k[0]);
        assert forall|m: int| 0 <= m < i - 1 implies t[m] != '=' by {
            assert(t[m] == k[m]);
        }
        assert(t[i - 1] == ' ');
        lemma_eq_index_skip(t, 0, i);
        assert(t[i] == '=');
        assert(eq_index(t, 0) == Some(i));
        assert(t.take(i) =~= k + seq![' ']);
        lemma_trim_space_end(k);
        assert((k + seq![' '])[0] == k[0]);
        assert(trim_start_ws(k + seq![' ']) == k + seq![' ']);
        assert(trim_end_ws(k) == k);
        assert(trim_ws(t.take(i)) == k);
        if v.len() > 0 {
            assert(t.skip(i + 1) =~= seq![' '] + v);
            lemma_trim_space_start(v);
            assert(trim_start_ws(v) == v);
            assert(trim_end_ws(v) == v);
            assert(trim_ws(t.skip(i + 1)) == v);
        } else {
            assert(t.skip(i + 1) =~= Seq::<char>::empty());
            assert(trim_ws(t.skip(i + 1)) =~= v);
        }
        assert(read_line(acc, l) == insert_entry(acc, k, v));
    } else {
        assert(l =~= seq![' '] + (seq!['=', ' '] + v));
        lemma_trim_space_start(seq!['=', ' '] + v);
        let u = seq!['=', ' '] + v;
        if v.len() > 0 {
            assert(u.last() == v.last());
            assert(t == u);
        } else {
            assert(u =~= seq!['='] + seq![' ']);
            lemma_trim_space_end(seq!['=']);
            assert(t =~= seq!['=']);
        }
        assert(t[0] == '=');
        assert(eq_index(t, 0) == Some(0int));
        assert(t.take(0) =~= Seq::<char>::empty());
        assert(k =~= Seq::<char>::empty());
        assert(trim_ws(t.take(0)) =~= k);
        if v.len() > 0 {
            assert(t.skip(1) =~= seq![' '] + v);
            lemma_trim_space_start(v);
            assert(trim_start_ws(v) == v);
            assert(trim_end_ws(v) == v);
            assert(trim_ws(t.skip(1)) == v);
        } else {
            assert(t.skip(1) =~= Seq::<char>::empty());
            assert(trim_ws(t.skip(1)) =~= v);
        }
        assert(read_line(acc, l) == insert_entry(acc, k, v));
    }
}

proof fn lemma_read_written(es: Entries, n: int)
    requires
        0 <= n <= es.len(),
        sorted(es),
        forall|i: int| 0 <= i < es.len() ==> writable(#[trigger] es[i]),
    ensures
        read_lines(Seq::new(n as nat, |i: int| entry_line(es[i]))) == es.take(n),
    decreases n,
{
    let ls = Seq::new(n as nat, |i: int| entry_line(es[i]));
    if n == 0 {
        assert(es.take(0) =~= Seq::<(Seq<char>, Seq<char>)>::empty());
    } else {
        lemma_read_written(es, n - 1);
        assert(ls.drop_last() =~= Seq::new((n - 1) as nat, |i: int| entry_line(es[i])));
        lemma_read_entry_line(es.take(n - 1), es[n - 1]);
        let acc = es.take(n - 1);
        if n - 1 > 0 {
            assert(acc.last() == es[n - 2]);
            assert(key_lt(es[n - 2].0, es[n - 1].0));
            assert(acc.last().0 != es[n - 1].0) by {
                lemma_key_lt_irrefl(es[n - 1].0);
            }
        }
        assert(acc.push(es[n - 1]) =~= es.take(n));
    }
}

/// Writing settings out and reading the text back gives the same settings, for keys
/// and values the file can hold as written.
pub proof fn lemma_format_then_parse(cfg: Config)
    requires
        cfg.wf(),
        forall|i: int| 0 <= i < cfg@.len() ==> writable(#[trigger] cfg@[i]),
    ensures
        parse_spec(format_spec(cfg@)) == cfg@,
{
    let es = cfg@;
    lemma_format_lines(es);
    let ls = Seq::new(es.len(), |i: int| entry_line(es[i]));
    assert(ls.push(Seq::empty()).drop_last() =~= ls);
    assert(trim_ws(Seq::<char>::empty()) =~= Seq::<char>::empty());
    lemma_read_written(es, es.len() as int);
    assert(es.take(es.len() as int) =~= es);
}

} // verus!
