//! Reading back what the writer wrote: a written image file reads as the image.

use vstd::prelude::*;

use crate::detect::{lines_spec, segments};
use crate::bcd::{is_ws, trim_end_ws, trim_start_ws, trim_ws};
use crate::floppy_image::hex::{hex_lines, parse_hex_spec, HexFault};
use crate::floppy_image::roundtrip::{
    hex_text, lemma_hex_roundtrip, lemma_hex_roundtrip_newline, lemma_written_lines, line_char, written_line,
};
use crate::floppy_image::yaml::{
    blank, block_common, block_end, block_piece, block_text, colon_index, comment_at, first_body, first_tab, has_key,
    map_from, scan_end, spaces_from, strip_comment, strip_cr, tab_indented, unquote, yaml_spec, yline, YLine, YNode,
    YamlFault,
};
use crate::floppy_image::{
    format_spec, header_text, indented, lookup, mapping_at, name_writable, parse_int_spec, parse_spec, read_side,
    read_sides, scalar_at, side_key, side_keys, side_text, top_keys, unknown_key, FloppyFault, ImageView, Side,
    SIDE_SIZE,
};

verus! {

/// The lines, each followed by a newline.
pub open spec fn joined(ls: Seq<Seq<char>>) -> Seq<char>
    decreases ls.len(),
{
    if ls.len() == 0 {
        Seq::empty()
    } else {
        ls[0] + seq!['\n'] + joined(ls.drop_first())
    }
}

/// No line holds a newline.
pub open spec fn single_lines(ls: Seq<Seq<char>>) -> bool {
    forall|i: int| 0 <= i < ls.len() ==> !(#[trigger] ls[i]).contains('\n')
}

pub proof fn lemma_joined_concat(a: Seq<Seq<char>>, b: Seq<Seq<char>>)
    ensures
        joined(a + b) == joined(a) + joined(b),
    decreases a.len(),
{
    if a.len() == 0 {
        assert(a + b =~= b);
        assert(joined(a) + joined(b) =~= joined(b));
    } else {
        assert((a + b).drop_first() =~= a.drop_first() + b);
        lemma_joined_concat(a.drop_first(), b);
        assert((a + b)[0] == a[0]);
        assert(joined(a + b) =~= joined(a) + joined(b));
    }
}

pub proof fn lemma_joined_push(a: Seq<Seq<char>>, x: Seq<char>)
    ensures
        joined(a.push(x)) == joined(a) + x + seq!['\n'],
{
    lemma_joined_concat(a, seq![x]);
    assert(a + seq![x] =~= a.push(x));
    assert(seq![x].drop_first() =~= Seq::<Seq<char>>::empty());
    assert(joined(Seq::<Seq<char>>::empty()) == Seq::<char>::empty());
    assert(joined(seq![x]) =~= x + seq!['\n'] + Seq::<char>::empty());
}

/// Splitting is the same from any starting point on what follows it.
proof fn lemma_segments_shift(t: Seq<char>, k: int, j: int)
    requires
        0 <= k <= j <= t.len(),
    ensures
        segments(t, k, j) == segments(t.skip(k), 0, j - k),
    decreases t.len() - j,
{
    let u = t.skip(k);
    if j < t.len() {
        assert(u[j - k] == t[j]);
        if t[j] == '\n' {
            lemma_segments_shift(t, j + 1, j + 1);
            lemma_segments_shift(u, j + 1 - k, j + 1 - k);
            assert(u.skip(j + 1 - k) =~= t.skip(j + 1));
            assert(u.subrange(0, j - k) =~= t.subrange(k, j));
        } else {
            lemma_segments_shift(t, k, j + 1);
        }
    } else {
        assert(u.subrange(0, u.len() as int) =~= t.subrange(k, t.len() as int));
    }
}

/// Within a piece without newline the scan runs to its end.
proof fn lemma_segments_run(t: Seq<char>, k: int, j: int, m: int)
    requires
        0 <= k <= j <= m <= t.len(),
        forall|q: int| j <= q < m ==> t[q] != '\n',
    ensures
        segments(t, k, j) == segments(t, k, m),
    decreases m - j,
{
    if j < m {
        lemma_segments_run(t, k, j + 1, m);
    }
}

/// The lines of joined lines are those lines and a last empty one.
pub proof fn lemma_lines_joined(ls: Seq<Seq<char>>)
    requires
        single_lines(ls),
    ensures
        lines_spec(joined(ls)) == ls.push(Seq::empty()),
    decreases ls.len(),
{
    let t = joined(ls);
    if ls.len() == 0 {
        assert(t.subrange(0, 0) =~= Seq::<char>::empty());
        assert(lines_spec(t) =~= ls.push(Seq::empty()));
    } else {
        let l0 = ls[0];
        let rest = ls.drop_first();
        assert(single_lines(rest)) by {
            assert forall|i: int| 0 <= i < rest.len() implies !(#[trigger] rest[i]).contains('\n') by {
                assert(rest[i] == ls[i + 1]);
            }
        }
        lemma_lines_joined(rest);
        let m = l0.len() as int;
        assert forall|q: int| 0 <= q < m implies t[q] != '\n' by {
            assert(t[q] == l0[q]);
            if l0[q] == '\n' {
                assert(l0.contains('\n'));
            }
        }
        lemma_segments_run(t, 0, 0, m);
        assert(t[m] == '\n');
        lemma_segments_shift(t, m + 1, m + 1);
        assert(t.skip(m + 1) =~= joined(rest));
        assert(t.subrange(0, m) =~= l0);
        assert(lines_spec(t) =~= seq![l0] + rest.push(Seq::empty()));
        assert(seq![l0] + rest.push(Seq::empty()) =~= ls.push(Seq::empty()));
    }
}

pub open spec fn spaces(n: nat) -> Seq<char> {
    Seq::new(n, |i: int| ' ')
}

/// A name between double quotes.
pub open spec fn quoted_value(name: Seq<char>) -> Seq<char> {
    seq!['"'] + name + seq!['"']
}

/// The line body `key: value`.
pub open spec fn entry_body(key: Seq<char>, v: Seq<char>) -> Seq<char> {
    key + seq![':'] + (seq![' '] + v)
}

pub open spec fn enc_body() -> Seq<char> {
    entry_body("encoding"@, "addressed-hex"@)
}

pub open spec fn bytes_body() -> Seq<char> {
    "bytes"@ + seq![':'] + seq![' ', '|']
}

/// A block scalar's lines: each indented by six spaces.
pub open spec fn block_lines(hs: Seq<Seq<char>>) -> Seq<Seq<char>> {
    hs.map_values(|h: Seq<char>| spaces(6) + h)
}

/// The header lines of a written image file.
pub open spec fn header_lines(name: Seq<char>, saved: Seq<char>) -> Seq<Seq<char>> {
    seq![
        "# Calc-U-1600 CE-1600F floppy disk image"@,
        entry_body("format"@, "ce1600f-floppy"@),
        entry_body("format-version"@, seq!['1']),
        entry_body("disk-name"@, quoted_value(name)),
        entry_body("saved"@, saved),
        "sides"@ + seq![':'],
    ]
}

/// The lines of one side of a written image file.
pub open spec fn side_lines(s: Side, b: Seq<u8>) -> Seq<Seq<char>> {
    seq![spaces(2) + (side_key(s) + seq![':']), spaces(4) + enc_body(), spaces(4) + bytes_body()] + block_lines(
        hex_lines(b, 0),
    )
}

proof fn lemma_indented_joined(ls: Seq<Seq<char>>)
    ensures
        indented(ls) == joined(block_lines(ls)),
    decreases ls.len(),
{
    reveal_strlit("      ");
    assert("      "@ =~= spaces(6));
    if ls.len() == 0 {
        assert(block_lines(ls) =~= Seq::<Seq<char>>::empty());
    } else {
        lemma_indented_joined(ls.drop_last());
        assert(block_lines(ls) =~= block_lines(ls.drop_last()).push(spaces(6) + ls.last()));
        lemma_joined_push(block_lines(ls.drop_last()), spaces(6) + ls.last());
        assert(indented(ls) =~= joined(block_lines(ls)));
    }
}

proof fn lemma_joined_lits(ls: Seq<Seq<char>>)
    ensures
        ls.len() == 1 ==> joined(ls) == ls[0] + seq!['\n'],
        ls.len() == 3 ==> joined(ls) == ls[0] + seq!['\n'] + ls[1] + seq!['\n'] + ls[2] + seq!['\n'],
        ls.len() == 6 ==> joined(ls) == ls[0] + seq!['\n'] + ls[1] + seq!['\n'] + ls[2] + seq!['\n'] + ls[3] + seq![
            '\n',
        ] + ls[4] + seq!['\n'] + ls[5] + seq!['\n'],
{
    reveal_with_fuel(joined, 7);
    if ls.len() == 1 {
        assert(joined(ls) =~= ls[0] + seq!['\n']);
    }
    if ls.len() == 3 {
        assert(joined(ls) =~= ls[0] + seq!['\n'] + ls[1] + seq!['\n'] + ls[2] + seq!['\n']);
    }
    if ls.len() == 6 {
        assert(joined(ls) =~= ls[0] + seq!['\n'] + ls[1] + seq!['\n'] + ls[2] + seq!['\n'] + ls[3] + seq!['\n']
            + ls[4] + seq!['\n'] + ls[5] + seq!['\n']);
    }
}

proof fn lemma_header_joined(name: Seq<char>, saved: Seq<char>)
    ensures
        header_text(name, saved) == joined(header_lines(name, saved)),
{
    reveal_strlit("# Calc-U-1600 CE-1600F floppy disk image\n");
    reveal_strlit("format: ce1600f-floppy\n");
    reveal_strlit("format-version: 1\n");
    reveal_strlit("disk-name: \"");
    reveal_strlit("\"\n");
    reveal_strlit("saved: ");
    reveal_strlit("\n");
    reveal_strlit("sides:\n");
    reveal_strlit("# Calc-U-1600 CE-1600F floppy disk image");
    reveal_strlit("format");
    reveal_strlit("ce1600f-floppy");
    reveal_strlit("format-version");
    reveal_strlit("disk-name");
    reveal_strlit("saved");
    reveal_strlit("sides");
    let ls = header_lines(name, saved);
    lemma_joined_lits(ls);
    assert(header_text(name, saved) =~= joined(ls));
}

proof fn lemma_side_joined(s: Side, b: Seq<u8>)
    ensures
        side_text(s, b) == joined(side_lines(s, b)),
{
    reveal_strlit("  ");
    reveal_strlit(":\n");
    reveal_strlit("    encoding: addressed-hex\n");
    reveal_strlit("    bytes: |\n");
    reveal_strlit("encoding");
    reveal_strlit("addressed-hex");
    reveal_strlit("bytes");
    let three = seq![spaces(2) + (side_key(s) + seq![':']), spaces(4) + enc_body(), spaces(4) + bytes_body()];
    let hs = hex_lines(b, 0);
    lemma_joined_lits(three);
    lemma_joined_concat(three, block_lines(hs));
    lemma_indented_joined(hs);
    assert(side_text(s, b) =~= joined(side_lines(s, b)));
}

// ── lines ────────────────────────────────────────────────────────────────

/// A line body the reader takes as it is: not empty, not starting with a space, a tab or
/// `#`, not ending with white space.
pub open spec fn plain_body(b: Seq<char>) -> bool {
    b.len() > 0 && b[0] != ' ' && b[0] != '\t' && b[0] != '#' && !is_ws(b.last())
}

proof fn lemma_spaces_count(r: Seq<char>, n: nat, i: int)
    requires
        0 <= i <= n,
        n <= r.len(),
        forall|k: int| 0 <= k < n ==> r[k] == ' ',
        n < r.len() ==> r[n as int] != ' ',
    ensures
        spaces_from(r, i) == n - i,
    decreases n - i,
{
    if i < n {
        lemma_spaces_count(r, n, i + 1);
    }
}

proof fn lemma_trim_plain(b: Seq<char>)
    requires
        b.len() > 0,
        !is_ws(b[0]),
        !is_ws(b.last()),
    ensures
        trim_ws(b) == b,
        trim_end_ws(b) == b,
        trim_start_ws(b) == b,
{
}

/// A line of indent and plain body reads as such.
pub proof fn lemma_line(n: nat, b: Seq<char>)
    requires
        plain_body(b),
    ensures
        yline(spaces(n) + b) == (YLine { indent: n, body: Some(b), raw: spaces(n) + b }),
        !tab_indented(spaces(n) + b),
        !blank(yline(spaces(n) + b)),
{
    let r = spaces(n) + b;
    assert(r.last() == b.last());
    assert(strip_cr(r) == r);
    assert forall|k: int| 0 <= k < n implies r[k] == ' ' by {}
    assert(r[n as int] == b[0]);
    lemma_spaces_count(r, n, 0);
    assert(r.skip(n as int) =~= b);
    crate::floppy_image::yaml::lemma_body_not_blank(r);
}

proof fn lemma_empty_line()
    ensures
        yline(Seq::empty()).body is None,
        !tab_indented(Seq::empty()),
        blank(yline(Seq::empty())),
        yline(Seq::empty()).raw.len() == 0,
{
    let e = Seq::<char>::empty();
    assert(strip_cr(e) == e);
    assert(spaces_from(e, 0) == 0);
    assert(e.skip(0) =~= e);
}

/// A key the reader takes as it is: a plain body without `:`.
pub open spec fn plain_key(k: Seq<char>) -> bool {
    plain_body(k) && !k.contains(':') && !is_ws(k[0])
}

proof fn lemma_colon_at_key(key: Seq<char>, tail: Seq<char>, i: int)
    requires
        0 <= i <= key.len(),
        !key.contains(':'),
    ensures
        colon_index(key + seq![':'] + tail, i) == Some(key.len() as int),
    decreases key.len() - i,
{
    let s = key + seq![':'] + tail;
    if i < key.len() {
        assert(s[i] == key[i]);
        if key[i] == ':' {
            assert(key.contains(':'));
        }
        lemma_colon_at_key(key, tail, i + 1);
    } else {
        assert(s[i] == ':');
    }
}

/// A value written plainly: no comment, quote or line break in it, no white space at its
/// ends, and not `|`.
pub open spec fn plain_value(v: Seq<char>) -> bool {
    &&& v.len() > 0
    &&& !is_ws(v[0])
    &&& !is_ws(v.last())
    &&& v != seq!['|']
    &&& forall|i: int| 0 <= i < v.len() ==> #[trigger] v[i] != '#' && v[i] != '"' && v[i] != '\'' && v[i] != '\n'
}

proof fn lemma_no_comment(v: Seq<char>, i: int, prev: bool)
    requires
        0 <= i <= v.len(),
        forall|k: int| 0 <= k < v.len() ==> #[trigger] v[k] != '#' && v[k] != '"' && v[k] != '\'',
    ensures
        comment_at(v, i, None, prev) is None,
    decreases v.len() - i,
{
    if i < v.len() {
        lemma_no_comment(v, i + 1, v[i] == ' ');
    }
}

proof fn lemma_quoted_run(v: Seq<char>, i: int, prev: bool)
    requires
        1 <= i <= v.len() - 1,
        forall|k: int| 1 <= k < v.len() - 1 ==> #[trigger] v[k] != '"',
        v[v.len() - 1] == '"',
    ensures
        comment_at(v, i, Some('"'), prev) is None,
    decreases v.len() - i,
{
    if i < v.len() - 1 {
        lemma_quoted_run(v, i + 1, v[i] == ' ');
    } else {
        assert(comment_at(v, i + 1, None, v[i] == ' ') is None);
    }
}

proof fn lemma_quoted_value(name: Seq<char>)
    requires
        !name.contains('"'),
    ensures
        comment_at(quoted_value(name), 0, None, true) is None,
        unquote(quoted_value(name)) == Some(name),
        !is_ws(quoted_value(name)[0]),
        !is_ws(quoted_value(name).last()),
        quoted_value(name) != seq!['|'],
        quoted_value(name).len() > 0,
{
    let v = quoted_value(name);
    assert forall|k: int| 1 <= k < v.len() - 1 implies #[trigger] v[k] != '"' by {
        assert(v[k] == name[k - 1]);
        if name[k - 1] == '"' {
            assert(name.contains('"'));
        }
    }
    if v.len() - 1 >= 1 {
        lemma_quoted_run(v, 1, false);
    }
    assert(v.drop_first() =~= name + seq!['"']);
    assert(v.drop_first().drop_last() =~= name);
    if v == seq!['|'] {
        assert(v.len() == 1);
    }
}

/// What a value reads as.
pub open spec fn value_read(v: Seq<char>) -> Option<Seq<char>> {
    let value = strip_comment(trim_ws(seq![' '] + v));
    if value == seq!['|'] || value.len() == 0 {
        None
    } else {
        unquote(value)
    }
}

proof fn lemma_value_trim(v: Seq<char>)
    requires
        v.len() > 0,
        !is_ws(v[0]),
        !is_ws(v.last()),
    ensures
        trim_ws(seq![' '] + v) == v,
{
    let w = seq![' '] + v;
    assert(w.drop_first() =~= v);
    assert(trim_start_ws(w) == trim_start_ws(v));
    lemma_trim_plain(v);
}

proof fn lemma_plain_value_read(v: Seq<char>)
    requires
        plain_value(v),
    ensures
        value_read(v) == Some(v),
{
    lemma_value_trim(v);
    lemma_no_comment(v, 0, true);
}

proof fn lemma_quoted_value_read(name: Seq<char>)
    requires
        !name.contains('"'),
    ensures
        value_read(quoted_value(name)) == Some(name),
{
    lemma_quoted_value(name);
    lemma_value_trim(quoted_value(name));
}

// ── mapping steps ────────────────────────────────────────────────────────

/// A `key: value` line at `indent` adds the scalar to the entries.
pub proof fn lemma_scalar_entry(
    ls: Seq<YLine>,
    pos: int,
    indent: nat,
    acc: Seq<(Seq<char>, YNode)>,
    key: Seq<char>,
    v: Seq<char>,
)
    requires
        0 <= pos < ls.len(),
        plain_key(key),
        value_read(v) is Some,
        ls[pos] == yline(spaces(indent) + (key + seq![':'] + (seq![' '] + v))),
        plain_body(key + seq![':'] + (seq![' '] + v)),
        !has_key(acc, key),
    ensures
        map_from(ls, pos, indent, acc) == map_from(ls, pos + 1, indent, acc.push((key, YNode::Scalar(value_read(v)->0)))),
{
    let body = key + seq![':'] + (seq![' '] + v);
    lemma_line(indent, body);
    lemma_colon_at_key(key, seq![' '] + v, 0);
    assert(body.take(key.len() as int) =~= key);
    assert(body.skip(key.len() as int + 1) =~= seq![' '] + v);
    lemma_trim_plain(key);
}

/// A `key:` line at `indent` whose next content line is deeper opens a nested mapping.
pub proof fn lemma_nested_entry(
    ls: Seq<YLine>,
    pos: int,
    indent: nat,
    acc: Seq<(Seq<char>, YNode)>,
    key: Seq<char>,
    ci: nat,
    es: Seq<(Seq<char>, YNode)>,
)
    requires
        0 <= pos < ls.len() - 1,
        plain_key(key),
        ls[pos] == yline(spaces(indent) + (key + seq![':'])),
        plain_body(key + seq![':']),
        !has_key(acc, key),
        ls[pos + 1].body is Some,
        ls[pos + 1].indent == ci,
        ci > indent,
        map_from(ls, pos + 1, ci, Seq::empty()) == Ok::<Seq<(Seq<char>, YNode)>, crate::floppy_image::yaml::YamlFault>(es),
    ensures
        map_from(ls, pos, indent, acc) == map_from(ls, scan_end(ls, pos + 1, ci), indent, acc.push((key, YNode::Mapping(es)))),
{
    let body = key + seq![':'];
    lemma_line(indent, body);
    lemma_colon_at_key(key, Seq::empty(), 0);
    assert(key + seq![':'] + Seq::<char>::empty() =~= body);
    assert(body.take(key.len() as int) =~= key);
    assert(body.skip(key.len() as int + 1) =~= Seq::<char>::empty());
    lemma_trim_plain(key);
    assert(trim_ws(Seq::<char>::empty()) =~= Seq::<char>::empty());
    assert(comment_at(Seq::<char>::empty(), 0, None, true) is None);
    assert(first_body(ls, pos + 1) == Some(pos + 1));
}

/// A `key: |` line at `indent` takes the block scalar below it.
pub proof fn lemma_block_entry(ls: Seq<YLine>, pos: int, indent: nat, acc: Seq<(Seq<char>, YNode)>, key: Seq<char>)
    requires
        0 <= pos < ls.len(),
        plain_key(key),
        ls[pos] == yline(spaces(indent) + (key + seq![':'] + seq![' ', '|'])),
        plain_body(key + seq![':'] + seq![' ', '|']),
        !has_key(acc, key),
    ensures
        map_from(ls, pos, indent, acc) == map_from(
            ls,
            block_end(ls, pos + 1, indent),
            indent,
            acc.push(
                (
                    key,
                    YNode::Scalar(
                        block_text(
                            ls,
                            pos + 1,
                            block_end(ls, pos + 1, indent),
                            match block_common(ls, pos + 1, block_end(ls, pos + 1, indent)) {
                                Some(c) => c,
                                None => 0,
                            },
                        ),
                    ),
                ),
            ),
        ),
{
    let body = key + seq![':'] + seq![' ', '|'];
    lemma_line(indent, body);
    lemma_colon_at_key(key, seq![' ', '|'], 0);
    assert(body.take(key.len() as int) =~= key);
    assert(body.skip(key.len() as int + 1) =~= seq![' ', '|']);
    lemma_trim_plain(key);
    lemma_value_trim(seq!['|']);
    assert(seq![' '] + seq!['|'] =~= seq![' ', '|']);
    lemma_no_comment(seq!['|'], 0, true);
    assert(strip_comment(seq!['|']) == seq!['|']);
}

// ── regions of lines ─────────────────────────────────────────────────────

proof fn lemma_scan_over(ls: Seq<YLine>, i: int, j: int, ci: nat)
    requires
        0 <= i <= j <= ls.len(),
        forall|q: int| i <= q < j ==> (#[trigger] ls[q]).body is None || ls[q].indent >= ci,
    ensures
        scan_end(ls, i, ci) == scan_end(ls, j, ci),
    decreases j - i,
{
    if i < j {
        lemma_scan_over(ls, i + 1, j, ci);
    }
}

proof fn lemma_block_over(ls: Seq<YLine>, i: int, j: int, ind: nat)
    requires
        0 <= i <= j <= ls.len(),
        forall|q: int| i <= q < j ==> blank(#[trigger] ls[q]) || ls[q].indent > ind,
    ensures
        block_end(ls, i, ind) == block_end(ls, j, ind),
    decreases j - i,
{
    if i < j {
        lemma_block_over(ls, i + 1, j, ind);
    }
}

proof fn lemma_common_six(ls: Seq<YLine>, i: int, e: int)
    requires
        0 <= i < e <= ls.len(),
        forall|q: int| i <= q < e ==> !blank(#[trigger] ls[q]) && ls[q].indent == 6,
    ensures
        block_common(ls, i, e) == Some(6nat),
    decreases e - i,
{
    assert(!blank(ls[e - 1]) && ls[e - 1].indent == 6);
    if e - 1 > i {
        lemma_common_six(ls, i, e - 1);
    } else {
        assert(block_common(ls, i, i) == None::<nat>);
    }
}

/// The pieces of the block lines `ls[i..i+n]`, each `spaces(6) + hs[k]`, are the `hs`.
proof fn lemma_block_text_lines(ls: Seq<YLine>, i: int, hs: Seq<Seq<char>>, n: int)
    requires
        0 <= i,
        0 <= n <= hs.len(),
        i + hs.len() <= ls.len(),
        forall|k: int| 0 <= k < hs.len() ==> (#[trigger] ls[i + k]).raw == spaces(6) + hs[k] && plain_body(hs[k]),
    ensures
        block_text(ls, i, i + n, 6) == joined(hs.take(n)),
    decreases n,
{
    if n == 0 {
        assert(hs.take(0) =~= Seq::<Seq<char>>::empty());
    } else {
        lemma_block_text_lines(ls, i, hs, n - 1);
        let h = hs[n - 1];
        let l = ls[i + n - 1];
        assert(l.raw == spaces(6) + h);
        assert(l.raw.skip(6) =~= h);
        assert(trim_end_ws(h) == h);
        assert(block_piece(l, 6) == h);
        assert(hs.take(n) =~= hs.take(n - 1).push(h));
        lemma_joined_push(hs.take(n - 1), h);
    }
}

proof fn lemma_no_tab(rs: Seq<Seq<char>>, i: int)
    requires
        0 <= i <= rs.len(),
        forall|q: int| i <= q < rs.len() ==> !tab_indented(#[trigger] rs[q]),
    ensures
        first_tab(rs, i) is None,
    decreases rs.len() - i,
{
    if i < rs.len() {
        lemma_no_tab(rs, i + 1);
    }
}

/// The entries of one side's mapping, its text `text`.
pub open spec fn side_entries(text: Seq<char>) -> Seq<(Seq<char>, YNode)> {
    seq![("encoding"@, YNode::Scalar("addressed-hex"@)), ("bytes"@, YNode::Scalar(text))]
}

proof fn lemma_side_literals()
    ensures
        plain_key("encoding"@),
        plain_key("bytes"@),
        plain_value("addressed-hex"@),
        plain_body(enc_body()),
        plain_body(bytes_body()),
        "encoding"@ != "bytes"@,
{
    reveal_strlit("encoding");
    reveal_strlit("bytes");
    reveal_strlit("addressed-hex");
    assert(enc_body().last() == 'x');
    assert(bytes_body().last() == '|');
    assert(enc_body()[0] == 'e');
    assert(bytes_body()[0] == 'b');
    assert("encoding"@.len() != "bytes"@.len());
    assert(!"encoding"@.contains(':')) by {
        if "encoding"@.contains(':') {
            let k = choose|k: int| 0 <= k < "encoding"@.len() && "encoding"@[k] == ':';
        }
    }
    assert(!"bytes"@.contains(':')) by {
        if "bytes"@.contains(':') {
            let k = choose|k: int| 0 <= k < "bytes"@.len() && "bytes"@[k] == ':';
        }
    }
}

/// One side's mapping: its `encoding` and `bytes` lines at indent 4 at `p + 1` and `p +
/// 2`, then its block lines, then (unless it is the last side) a content line at indent
/// 2, or (if it is) one empty line at the end.
proof fn lemma_side_map(ls: Seq<YLine>, p: int, hs: Seq<Seq<char>>, last: bool)
    requires
        0 <= p,
        hs.len() > 0,
        p + 3 + hs.len() < ls.len(),
        ls[p + 1] == yline(spaces(4) + enc_body()),
        ls[p + 2] == yline(spaces(4) + bytes_body()),
        forall|k: int| 0 <= k < hs.len() ==> (#[trigger] ls[p + 3 + k]) == yline(spaces(6) + hs[k]) && plain_body(hs[k]),
        last ==> p + 3 + hs.len() == ls.len() - 1 && ls[p + 3 + hs.len()] == yline(Seq::empty()),
        !last ==> ls[p + 3 + hs.len()].body is Some && ls[p + 3 + hs.len()].indent == 2 && !blank(ls[p + 3 + hs.len()]),
    ensures
        map_from(ls, p + 1, 4, Seq::empty()) == Ok::<Seq<(Seq<char>, YNode)>, crate::floppy_image::yaml::YamlFault>(
            side_entries(joined(hs) + if last {
                seq!['\n']
            } else {
                Seq::empty()
            }),
        ),
        scan_end(ls, p + 1, 4) == if last {
            ls.len() as int
        } else {
            p + 3 + hs.len()
        },
{
    let e = p + 3 + hs.len();
    lemma_side_literals();
    reveal_strlit("addressed-hex");
    lemma_line(4, enc_body());
    lemma_line(4, bytes_body());
    lemma_plain_value_read("addressed-hex"@);
    let acc0 = Seq::<(Seq<char>, YNode)>::empty();
    lemma_scalar_entry(ls, p + 1, 4, acc0, "encoding"@, "addressed-hex"@);
    let acc1 = acc0.push(("encoding"@, YNode::Scalar("addressed-hex"@)));
    assert(!has_key(acc1, "bytes"@)) by {
        if has_key(acc1, "bytes"@) {
            let k = choose|k: int| 0 <= k < acc1.len() && (#[trigger] acc1[k]).0 == "bytes"@;
        }
    }
    assert(spaces(4) + bytes_body() == spaces(4) + ("bytes"@ + seq![':'] + seq![' ', '|']));
    lemma_block_entry(ls, p + 2, 4, acc1, "bytes"@);
    assert forall|k: int| 0 <= k < hs.len() implies (#[trigger] ls[p + 3 + k]).raw == spaces(6) + hs[k] && !blank(
        ls[p + 3 + k],
    ) && ls[p + 3 + k].indent == 6 && ls[p + 3 + k].body is Some by {
        lemma_line(6, hs[k]);
    }
    assert forall|q: int| p + 3 <= q < e implies blank(#[trigger] ls[q]) || ls[q].indent > 4 by {
        assert(ls[q] == ls[p + 3 + (q - p - 3)]);
    }
    lemma_block_over(ls, p + 3, e, 4);
    assert forall|q: int| p + 3 <= q < e implies !blank(#[trigger] ls[q]) && ls[q].indent == 6 by {
        assert(ls[q] == ls[p + 3 + (q - p - 3)]);
    }
    lemma_common_six(ls, p + 3, e);
    assert forall|k: int| 0 <= k < hs.len() implies (#[trigger] ls[p + 3 + k]).raw == spaces(6) + hs[k] && plain_body(
        hs[k],
    ) by {
        lemma_line(6, hs[k]);
    }
    lemma_block_text_lines(ls, p + 3, hs, hs.len() as int);
    assert(hs.take(hs.len() as int) =~= hs);
    // the lines after the block
    assert forall|q: int| p + 1 <= q < e implies (#[trigger] ls[q]).body is None || ls[q].indent >= 4 by {
        if q >= p + 3 {
            assert(ls[q] == ls[p + 3 + (q - p - 3)]);
            lemma_line(6, hs[q - p - 3]);
        }
    }
    lemma_scan_over(ls, p + 1, e, 4);
    let text = joined(hs) + if last {
        seq!['\n']
    } else {
        Seq::empty()
    };
    let acc2 = acc1.push(("bytes"@, YNode::Scalar(text)));
    assert(acc2 =~= side_entries(text));
    if last {
        lemma_empty_line();
        assert(block_end(ls, e, 4) == block_end(ls, e + 1, 4));
        assert(block_end(ls, e + 1, 4) == ls.len());
        assert(block_common(ls, p + 3, e + 1) == block_common(ls, p + 3, e));
        assert(block_piece(ls[e], 6) =~= Seq::<char>::empty());
        assert(block_text(ls, p + 3, e + 1, 6) =~= joined(hs) + seq!['\n']);
        assert(scan_end(ls, e, 4) == scan_end(ls, e + 1, 4));
    } else {
        assert(block_end(ls, e, 4) == e);
        assert(block_text(ls, p + 3, e, 6) =~= joined(hs) + Seq::<char>::empty());
    }
}

// ── the whole file ───────────────────────────────────────────────────────

proof fn lemma_hex_text_joined(ls: Seq<Seq<char>>)
    ensures
        hex_text(ls) == joined(ls),
    decreases ls.len(),
{
    if ls.len() > 0 {
        lemma_hex_text_joined(ls.drop_first());
    }
}

proof fn lemma_no_nl_add(x: Seq<char>, y: Seq<char>)
    requires
        !x.contains('\n'),
        !y.contains('\n'),
    ensures
        !(x + y).contains('\n'),
{
    if (x + y).contains('\n') {
        let k = choose|k: int| 0 <= k < (x + y).len() && (x + y)[k] == '\n';
        if k < x.len() {
            assert(x[k] == (x + y)[k]);
        } else {
            assert(y[k - x.len()] == (x + y)[k]);
        }
    }
}

proof fn lemma_spaces_no_nl(n: nat)
    ensures
        !spaces(n).contains('\n'),
{
    if spaces(n).contains('\n') {
        let k = choose|k: int| 0 <= k < spaces(n).len() && spaces(n)[k] == '\n';
    }
}

/// A written hex line is a plain line body without newline.
proof fn lemma_written_plain(h: Seq<char>)
    requires
        written_line(h),
    ensures
        plain_body(h),
        !h.contains('\n'),
{
    assert(line_char(h[h.len() - 1]));
    if h.contains('\n') {
        let k = choose|k: int| 0 <= k < h.len() && h[k] == '\n';
        assert(line_char(h[k]));
    }
}

/// The text of the keys and fixed values of the file.
proof fn lemma_file_literals()
    ensures
        plain_key("format"@),
        plain_key("format-version"@),
        plain_key("disk-name"@),
        plain_key("saved"@),
        plain_key("sides"@),
        plain_key(seq!['a']),
        plain_key(seq!['b']),
        plain_value("ce1600f-floppy"@),
        plain_value(seq!['1']),
        !"# Calc-U-1600 CE-1600F floppy disk image"@.contains('\n'),
        "# Calc-U-1600 CE-1600F floppy disk image"@[0] == '#',
        !is_ws("# Calc-U-1600 CE-1600F floppy disk image"@.last()),
        !"format"@.contains('\n'),
        !"format-version"@.contains('\n'),
        !"disk-name"@.contains('\n'),
        !"saved"@.contains('\n'),
        !"sides"@.contains('\n'),
        !"ce1600f-floppy"@.contains('\n'),
        "format"@ != "format-version"@,
        "format"@ != "disk-name"@,
        "format"@ != "saved"@,
        "format"@ != "sides"@,
        "format-version"@ != "disk-name"@,
        "format-version"@ != "saved"@,
        "format-version"@ != "sides"@,
        "disk-name"@ != "saved"@,
        "disk-name"@ != "sides"@,
        "saved"@ != "sides"@,
{
    reveal_strlit("format");
    reveal_strlit("format-version");
    reveal_strlit("disk-name");
    reveal_strlit("saved");
    reveal_strlit("sides");
    reveal_strlit("ce1600f-floppy");
    reveal_strlit("# Calc-U-1600 CE-1600F floppy disk image");
    assert("saved"@[1] != "sides"@[1]);
    let ks = seq!["format"@, "format-version"@, "disk-name"@, "saved"@, "sides"@, seq!['a'], seq!['b']];
    assert forall|j: int| 0 <= j < ks.len() implies !(#[trigger] ks[j]).contains(':') && !ks[j].contains('\n') by {
        let k = ks[j];
        if k.contains(':') || k.contains('\n') {
            let q = choose|q: int| 0 <= q < k.len() && (k[q] == ':' || k[q] == '\n');
        }
    }
    assert(!ks[0].contains(':') && !ks[1].contains(':') && !ks[2].contains(':') && !ks[3].contains(':')
        && !ks[4].contains(':') && !ks[5].contains(':') && !ks[6].contains(':'));
    assert(!ks[0].contains('\n') && !ks[1].contains('\n') && !ks[2].contains('\n') && !ks[3].contains('\n')
        && !ks[4].contains('\n'));
    let c = "# Calc-U-1600 CE-1600F floppy disk image"@;
    if c.contains('\n') {
        let q = choose|q: int| 0 <= q < c.len() && c[q] == '\n';
    }
    let v = "ce1600f-floppy"@;
    assert forall|i: int| 0 <= i < v.len() implies #[trigger] v[i] != '#' && v[i] != '"' && v[i] != '\'' && v[i]
        != '\n' by {}
    let one = seq!['1'];
    assert forall|i: int| 0 <= i < one.len() implies #[trigger] one[i] != '#' && one[i] != '"' && one[i] != '\''
        && one[i] != '\n' by {}
    if v.contains('\n') {
        let q = choose|q: int| 0 <= q < v.len() && v[q] == '\n';
    }
}

/// A `key: value` body is a plain line body.
proof fn lemma_entry_body(key: Seq<char>, v: Seq<char>)
    requires
        plain_key(key),
        v.len() > 0,
        !is_ws(v.last()),
        !key.contains('\n'),
        !v.contains('\n'),
    ensures
        plain_body(entry_body(key, v)),
        !entry_body(key, v).contains('\n'),
{
    let b = entry_body(key, v);
    assert(b[0] == key[0]);
    assert(b.last() == v.last());
    lemma_no_nl_add(key, seq![':']);
    lemma_no_nl_add(seq![' '], v);
    lemma_no_nl_add(key + seq![':'], seq![' '] + v);
    if seq![':'].contains('\n') {
        let q = choose|q: int| 0 <= q < 1 && seq![':'][q] == '\n';
    }
    if seq![' '].contains('\n') {
        let q = choose|q: int| 0 <= q < 1 && seq![' '][q] == '\n';
    }
}

/// A `key:` body is a plain line body.
proof fn lemma_key_body(key: Seq<char>)
    requires
        plain_key(key),
        !key.contains('\n'),
    ensures
        plain_body(key + seq![':']),
        !(key + seq![':']).contains('\n'),
{
    assert((key + seq![':'])[0] == key[0]);
    lemma_no_nl_add(key, seq![':']);
    if seq![':'].contains('\n') {
        let q = choose|q: int| 0 <= q < 1 && seq![':'][q] == '\n';
    }
}

/// The lines of a written image file.
pub open spec fn image_lines(name: Seq<char>, saved: Seq<char>, a: Seq<u8>, b: Seq<u8>) -> Seq<Seq<char>> {
    header_lines(name, saved) + side_lines(Side::A, a) + side_lines(Side::B, b)
}

proof fn lemma_image_joined(name: Seq<char>, saved: Seq<char>, a: Seq<u8>, b: Seq<u8>)
    ensures
        header_text(name, saved) + side_text(Side::A, a) + side_text(Side::B, b) == joined(
            image_lines(name, saved, a, b),
        ),
{
    lemma_header_joined(name, saved);
    lemma_side_joined(Side::A, a);
    lemma_side_joined(Side::B, b);
    lemma_joined_concat(header_lines(name, saved), side_lines(Side::A, a));
    lemma_joined_concat(header_lines(name, saved) + side_lines(Side::A, a), side_lines(Side::B, b));
}

proof fn lemma_single_add(x: Seq<Seq<char>>, y: Seq<Seq<char>>)
    requires
        single_lines(x),
        single_lines(y),
    ensures
        single_lines(x + y),
{
    assert forall|i: int| 0 <= i < (x + y).len() implies !(#[trigger] (x + y)[i]).contains('\n') by {
        if i < x.len() {
            assert((x + y)[i] == x[i]);
        } else {
            assert((x + y)[i] == y[i - x.len()]);
        }
    }
}

/// The extra facts on side literals that the file needs.
proof fn lemma_side_plain()
    ensures
        plain_body(enc_body()),
        plain_body(bytes_body()),
        !enc_body().contains('\n'),
        !bytes_body().contains('\n'),
        plain_value("addressed-hex"@),
{
    lemma_side_literals();
    reveal_strlit("encoding");
    reveal_strlit("bytes");
    reveal_strlit("addressed-hex");
    let e = enc_body();
    let b = bytes_body();
    if e.contains('\n') {
        let q = choose|q: int| 0 <= q < e.len() && e[q] == '\n';
    }
    if b.contains('\n') {
        let q = choose|q: int| 0 <= q < b.len() && b[q] == '\n';
    }
}

proof fn lemma_side_single(s: Side, b: Seq<u8>)
    requires
        b.len() <= usize::MAX,
    ensures
        single_lines(side_lines(s, b)),
        forall|k: int|
            0 <= k < hex_lines(b, 0).len() ==> plain_body(#[trigger] hex_lines(b, 0)[k]) && !hex_lines(
                b,
                0,
            )[k].contains('\n'),
{
    let hs = hex_lines(b, 0);
    lemma_written_lines(b, 0);
    assert forall|k: int| 0 <= k < hs.len() implies plain_body(#[trigger] hs[k]) && !hs[k].contains('\n') by {
        lemma_written_plain(hs[k]);
    }
    lemma_spaces_no_nl(2);
    lemma_spaces_no_nl(4);
    lemma_spaces_no_nl(6);
    lemma_side_plain();
    let key = side_key(s);
    assert(plain_key(key) && !key.contains('\n')) by {
        lemma_file_literals();
        if key.contains('\n') {
            let q = choose|q: int| 0 <= q < key.len() && key[q] == '\n';
        }
    }
    lemma_key_body(key);
    lemma_no_nl_add(spaces(2), key + seq![':']);
    lemma_no_nl_add(spaces(4), enc_body());
    lemma_no_nl_add(spaces(4), bytes_body());
    let three = seq![spaces(2) + (key + seq![':']), spaces(4) + enc_body(), spaces(4) + bytes_body()];
    assert(single_lines(three));
    let bl = block_lines(hs);
    assert forall|k: int| 0 <= k < bl.len() implies !(#[trigger] bl[k]).contains('\n') by {
        assert(bl[k] == spaces(6) + hs[k]);
        lemma_no_nl_add(spaces(6), hs[k]);
    }
    lemma_single_add(three, bl);
}

proof fn lemma_image_single(name: Seq<char>, saved: Seq<char>, a: Seq<u8>, b: Seq<u8>)
    requires
        name_writable(name),
        plain_value(saved),
        a.len() <= usize::MAX,
        b.len() <= usize::MAX,
    ensures
        single_lines(image_lines(name, saved, a, b)),
{
    lemma_file_literals();
    let q = quoted_value(name);
    lemma_no_nl_add(seq!['"'], name);
    lemma_no_nl_add(seq!['"'] + name, seq!['"']);
    if seq!['"'].contains('\n') {
        let k = choose|k: int| 0 <= k < 1 && seq!['"'][k] == '\n';
    }
    lemma_quoted_value(name);
    lemma_entry_body("format"@, "ce1600f-floppy"@);
    lemma_entry_body("format-version"@, seq!['1']);
    if seq!['1'].contains('\n') {
        let k = choose|k: int| 0 <= k < 1 && seq!['1'][k] == '\n';
    }
    lemma_entry_body("disk-name"@, q);
    if saved.contains('\n') {
        let k = choose|k: int| 0 <= k < saved.len() && saved[k] == '\n';
    }
    lemma_entry_body("saved"@, saved);
    lemma_key_body("sides"@);
    assert(single_lines(header_lines(name, saved)));
    lemma_side_single(Side::A, a);
    lemma_side_single(Side::B, b);
    lemma_single_add(header_lines(name, saved), side_lines(Side::A, a));
    lemma_single_add(header_lines(name, saved) + side_lines(Side::A, a), side_lines(Side::B, b));
}

/// The lines of a written image file as split at newlines: the last one is empty.
pub open spec fn image_rows(name: Seq<char>, saved: Seq<char>, a: Seq<u8>, b: Seq<u8>) -> Seq<Seq<char>> {
    image_lines(name, saved, a, b).push(Seq::empty())
}

proof fn lemma_hex_lines_nonempty(b: Seq<u8>)
    requires
        b.len() > 0,
    ensures
        hex_lines(b, 0).len() > 0,
{
}

proof fn lemma_rows_shape(name: Seq<char>, saved: Seq<char>, a: Seq<u8>, b: Seq<u8>)
    requires
        a.len() > 0,
        b.len() > 0,
    ensures
        ({
            let rows = image_rows(name, saved, a, b);
            let ha = hex_lines(a, 0);
            let hb = hex_lines(b, 0);
            let na = ha.len() as int;
            let nb = hb.len() as int;
            &&& na > 0 && nb > 0
            &&& rows.len() == 13 + na + nb
            &&& rows[0] == "# Calc-U-1600 CE-1600F floppy disk image"@
            &&& rows[1] == entry_body("format"@, "ce1600f-floppy"@)
            &&& rows[2] == entry_body("format-version"@, seq!['1'])
            &&& rows[3] == entry_body("disk-name"@, quoted_value(name))
            &&& rows[4] == entry_body("saved"@, saved)
            &&& rows[5] == "sides"@ + seq![':']
            &&& rows[6] == spaces(2) + (seq!['a'] + seq![':'])
            &&& rows[7] == spaces(4) + enc_body()
            &&& rows[8] == spaces(4) + bytes_body()
            &&& (forall|k: int| 0 <= k < na ==> #[trigger] rows[9 + k] == spaces(6) + ha[k])
            &&& rows[9 + na] == spaces(2) + (seq!['b'] + seq![':'])
            &&& rows[10 + na] == spaces(4) + enc_body()
            &&& rows[11 + na] == spaces(4) + bytes_body()
            &&& (forall|k: int| 0 <= k < nb ==> #[trigger] rows[12 + na + k] == spaces(6) + hb[k])
            &&& rows[12 + na + nb] == Seq::<char>::empty()
        }),
{
    let rows = image_rows(name, saved, a, b);
    let h = header_lines(name, saved);
    let sa = side_lines(Side::A, a);
    let sb = side_lines(Side::B, b);
    let ha = hex_lines(a, 0);
    let hb = hex_lines(b, 0);
    let na = ha.len() as int;
    let nb = hb.len() as int;
    lemma_hex_lines_nonempty(a);
    lemma_hex_lines_nonempty(b);
    assert(rows.len() == 13 + na + nb);
    assert forall|i: int| 0 <= i < 6 implies rows[i] == h[i] by {}
    assert forall|i: int| 0 <= i < 3 + na implies rows[6 + i] == sa[i] by {}
    assert forall|i: int| 0 <= i < 3 + nb implies rows[9 + na + i] == sb[i] by {}
    assert(rows[0] == h[0]);
    assert(rows[1] == h[1]);
    assert(rows[2] == h[2]);
    assert(rows[3] == h[3]);
    assert(rows[4] == h[4]);
    assert(rows[5] == h[5]);
    assert(rows[6] == sa[0]);
    assert(rows[7] == sa[1]);
    assert(rows[8] == sa[2]);
    assert forall|k: int| 0 <= k < na implies #[trigger] rows[9 + k] == spaces(6) + ha[k] by {
        assert(rows[6 + (3 + k)] == sa[3 + k]);
    }
    assert(rows[9 + na] == sb[0]);
    assert(rows[9 + na + 1] == sb[1]);
    assert(rows[9 + na + 2] == sb[2]);
    assert forall|k: int| 0 <= k < nb implies #[trigger] rows[12 + na + k] == spaces(6) + hb[k] by {
        assert(rows[9 + na + (3 + k)] == sb[3 + k]);
    }
}

proof fn lemma_comment_line(c: Seq<char>)
    requires
        c.len() > 0,
        c[0] == '#',
        !is_ws(c.last()),
    ensures
        yline(c).body is None,
        !tab_indented(c),
{
    assert(strip_cr(c) == c);
    assert(spaces_from(c, 0) == 0);
    assert(c.skip(0) =~= c);
    assert(trim_end_ws(c) == c);
}

/// The facts on each row that reading it needs.
proof fn lemma_rows_read(name: Seq<char>, saved: Seq<char>, a: Seq<u8>, b: Seq<u8>)
    requires
        name_writable(name),
        plain_value(saved),
        0 < a.len() <= usize::MAX,
        0 < b.len() <= usize::MAX,
    ensures
        ({
            let rows = image_rows(name, saved, a, b);
            let ha = hex_lines(a, 0);
            let hb = hex_lines(b, 0);
            &&& forall|i: int| 0 <= i < rows.len() ==> !tab_indented(#[trigger] rows[i])
            &&& yline(rows[0]).body is None
            &&& plain_body(entry_body("format"@, "ce1600f-floppy"@))
            &&& plain_body(entry_body("format-version"@, seq!['1']))
            &&& plain_body(entry_body("disk-name"@, quoted_value(name)))
            &&& plain_body(entry_body("saved"@, saved))
            &&& plain_body("sides"@ + seq![':'])
            &&& plain_body(seq!['a'] + seq![':'])
            &&& plain_body(seq!['b'] + seq![':'])
            &&& (forall|k: int| 0 <= k < ha.len() ==> plain_body(#[trigger] ha[k]))
            &&& (forall|k: int| 0 <= k < hb.len() ==> plain_body(#[trigger] hb[k]))
        }),
{
    let rows = image_rows(name, saved, a, b);
    let ha = hex_lines(a, 0);
    let hb = hex_lines(b, 0);
    let na = ha.len() as int;
    let nb = hb.len() as int;
    lemma_rows_shape(name, saved, a, b);
    lemma_file_literals();
    lemma_side_plain();
    lemma_side_single(Side::A, a);
    lemma_side_single(Side::B, b);
    reveal_strlit("# Calc-U-1600 CE-1600F floppy disk image");
    lemma_comment_line(rows[0]);
    lemma_quoted_value(name);
    if seq!['1'].contains('\n') {
        let k = choose|k: int| 0 <= k < 1 && seq!['1'][k] == '\n';
    }
    if saved.contains('\n') {
        let k = choose|k: int| 0 <= k < saved.len() && saved[k] == '\n';
    }
    lemma_no_nl_add(seq!['"'], name);
    lemma_no_nl_add(seq!['"'] + name, seq!['"']);
    if seq!['"'].contains('\n') {
        let k = choose|k: int| 0 <= k < 1 && seq!['"'][k] == '\n';
    }
    lemma_entry_body("format"@, "ce1600f-floppy"@);
    lemma_entry_body("format-version"@, seq!['1']);
    lemma_entry_body("disk-name"@, quoted_value(name));
    lemma_entry_body("saved"@, saved);
    lemma_key_body("sides"@);
    lemma_key_body(seq!['a']);
    lemma_key_body(seq!['b']);
    assert forall|i: int| 0 <= i < rows.len() implies !tab_indented(#[trigger] rows[i]) by {
        if 1 <= i <= 5 {
            assert(spaces(0) + rows[i] =~= rows[i]);
            lemma_line(0, rows[i]);
        } else if i == 6 || i == 9 + na {
            lemma_line(2, rows[i].skip(2));
            assert(spaces(2) + rows[i].skip(2) =~= rows[i]);
        } else if i == 7 || i == 8 || i == 10 + na || i == 11 + na {
            lemma_line(4, rows[i].skip(4));
            assert(spaces(4) + rows[i].skip(4) =~= rows[i]);
        } else if 9 <= i < 9 + na {
            assert(rows[9 + (i - 9)] == spaces(6) + ha[i - 9]);
            lemma_line(6, ha[i - 9]);
        } else if 12 + na <= i < 12 + na + nb {
            assert(rows[12 + na + (i - 12 - na)] == spaces(6) + hb[i - 12 - na]);
            lemma_line(6, hb[i - 12 - na]);
        } else if i == 12 + na + nb {
            lemma_empty_line();
        }
    }
}

/// The `sides` mapping of a file, the texts of side A and side B given.
pub open spec fn sides_entries(ta: Seq<char>, tb: Seq<char>) -> Seq<(Seq<char>, YNode)> {
    seq![(seq!['a'], YNode::Mapping(side_entries(ta))), (seq!['b'], YNode::Mapping(side_entries(tb)))]
}

/// The lines of a written image file as the reader sees them.
pub open spec fn image_ylines(name: Seq<char>, saved: Seq<char>, a: Seq<u8>, b: Seq<u8>) -> Seq<YLine> {
    let rows = image_rows(name, saved, a, b);
    Seq::new(rows.len(), |i: int| yline(rows[i]))
}

proof fn lemma_sides_map(name: Seq<char>, saved: Seq<char>, a: Seq<u8>, b: Seq<u8>)
    requires
        name_writable(name),
        plain_value(saved),
        0 < a.len() <= usize::MAX,
        0 < b.len() <= usize::MAX,
    ensures
        ({
            let ys = image_ylines(name, saved, a, b);
            &&& map_from(ys, 6, 2, Seq::empty()) == Ok::<Seq<(Seq<char>, YNode)>, crate::floppy_image::yaml::YamlFault>(
                sides_entries(joined(hex_lines(a, 0)), joined(hex_lines(b, 0)) + seq!['\n']),
            )
            &&& scan_end(ys, 6, 2) == ys.len()
        }),
{
    let rows = image_rows(name, saved, a, b);
    let ys = image_ylines(name, saved, a, b);
    let ha = hex_lines(a, 0);
    let hb = hex_lines(b, 0);
    let na = ha.len() as int;
    let nb = hb.len() as int;
    lemma_rows_shape(name, saved, a, b);
    lemma_rows_read(name, saved, a, b);
    lemma_file_literals();
    lemma_side_plain();
    let ka = seq!['a'] + seq![':'];
    let kb = seq!['b'] + seq![':'];
    lemma_line(2, ka);
    lemma_line(2, kb);
    lemma_line(4, enc_body());
    lemma_line(4, bytes_body());
    assert(ys[6] == yline(spaces(2) + ka));
    assert(ys[7] == yline(spaces(4) + enc_body()));
    assert(ys[8] == yline(spaces(4) + bytes_body()));
    assert(ys[9 + na] == yline(spaces(2) + kb));
    assert(ys[10 + na] == yline(spaces(4) + enc_body()));
    assert(ys[11 + na] == yline(spaces(4) + bytes_body()));
    assert forall|k: int| 0 <= k < ha.len() implies (#[trigger] ys[6 + 3 + k]) == yline(spaces(6) + ha[k])
        && plain_body(ha[k]) by {
        assert(rows[9 + k] == spaces(6) + ha[k]);
    }
    lemma_side_map(ys, 6, ha, false);
    lemma_empty_line();
    assert(ys[12 + na + nb] == yline(Seq::empty()));
    assert forall|k: int| 0 <= k < hb.len() implies (#[trigger] ys[9 + na + 3 + k]) == yline(spaces(6) + hb[k])
        && plain_body(hb[k]) by {
        assert(rows[12 + na + k] == spaces(6) + hb[k]);
    }
    lemma_side_map(ys, 9 + na, hb, true);
    let ta = joined(ha);
    let tb = joined(hb) + seq!['\n'];
    assert(joined(ha) + Seq::<char>::empty() =~= joined(ha));
    let acc0 = Seq::<(Seq<char>, YNode)>::empty();
    lemma_nested_entry(ys, 6, 2, acc0, seq!['a'], 4, side_entries(ta));
    let acc1 = acc0.push((seq!['a'], YNode::Mapping(side_entries(ta))));
    assert(!has_key(acc1, seq!['b'])) by {
        if has_key(acc1, seq!['b']) {
            let k = choose|k: int| 0 <= k < acc1.len() && (#[trigger] acc1[k]).0 == seq!['b'];
            assert(acc1[0].0[0] == 'a');
        }
    }
    lemma_nested_entry(ys, 9 + na, 2, acc1, seq!['b'], 4, side_entries(tb));
    let acc2 = acc1.push((seq!['b'], YNode::Mapping(side_entries(tb))));
    assert(acc2 =~= sides_entries(ta, tb));
    assert forall|q: int| 6 <= q < ys.len() implies (#[trigger] ys[q]).body is None || ys[q].indent >= 2 by {
        if 9 <= q < 9 + na {
            assert(rows[9 + (q - 9)] == spaces(6) + ha[q - 9]);
            lemma_line(6, ha[q - 9]);
        } else if 12 + na <= q < 12 + na + nb {
            assert(rows[12 + na + (q - 12 - na)] == spaces(6) + hb[q - 12 - na]);
            lemma_line(6, hb[q - 12 - na]);
        }
    }
    lemma_scan_over(ys, 6, ys.len() as int, 2);
}

/// The top-level entries of a file, the texts of side A and side B given.
pub open spec fn root_entries(name: Seq<char>, saved: Seq<char>, ta: Seq<char>, tb: Seq<char>) -> Seq<
    (Seq<char>, YNode),
> {
    seq![
        ("format"@, YNode::Scalar("ce1600f-floppy"@)),
        ("format-version"@, YNode::Scalar(seq!['1'])),
        ("disk-name"@, YNode::Scalar(name)),
        ("saved"@, YNode::Scalar(saved)),
        ("sides"@, YNode::Mapping(sides_entries(ta, tb))),
    ]
}

proof fn lemma_no_key(acc: Seq<(Seq<char>, YNode)>, key: Seq<char>)
    requires
        forall|k: int| 0 <= k < acc.len() ==> (#[trigger] acc[k]).0 != key,
    ensures
        !has_key(acc, key),
{
}

proof fn lemma_root_map(name: Seq<char>, saved: Seq<char>, a: Seq<u8>, b: Seq<u8>)
    requires
        name_writable(name),
        plain_value(saved),
        0 < a.len() <= usize::MAX,
        0 < b.len() <= usize::MAX,
    ensures
        map_from(image_ylines(name, saved, a, b), 0, 0, Seq::empty()) == Ok::<
            Seq<(Seq<char>, YNode)>,
            crate::floppy_image::yaml::YamlFault,
        >(root_entries(name, saved, joined(hex_lines(a, 0)), joined(hex_lines(b, 0)) + seq!['\n'])),
{
    let rows = image_rows(name, saved, a, b);
    let ys = image_ylines(name, saved, a, b);
    let ta = joined(hex_lines(a, 0));
    let tb = joined(hex_lines(b, 0)) + seq!['\n'];
    lemma_rows_shape(name, saved, a, b);
    lemma_rows_read(name, saved, a, b);
    lemma_file_literals();
    lemma_sides_map(name, saved, a, b);
    assert forall|i: int| 1 <= i <= 5 implies spaces(0) + rows[i] =~= rows[i] by {}
    assert(ys[0].body is None);
    let acc0 = Seq::<(Seq<char>, YNode)>::empty();
    assert(map_from(ys, 0, 0, acc0) == map_from(ys, 1, 0, acc0));
    // format
    lemma_plain_value_read("ce1600f-floppy"@);
    assert(ys[1] == yline(spaces(0) + rows[1]));
    lemma_scalar_entry(ys, 1, 0, acc0, "format"@, "ce1600f-floppy"@);
    let acc1 = acc0.push(("format"@, YNode::Scalar("ce1600f-floppy"@)));
    // format-version
    lemma_plain_value_read(seq!['1']);
    assert(ys[2] == yline(spaces(0) + rows[2]));
    lemma_no_key(acc1, "format-version"@);
    lemma_scalar_entry(ys, 2, 0, acc1, "format-version"@, seq!['1']);
    let acc2 = acc1.push(("format-version"@, YNode::Scalar(seq!['1'])));
    // disk-name
    lemma_quoted_value_read(name);
    lemma_quoted_value(name);
    assert(ys[3] == yline(spaces(0) + rows[3]));
    lemma_no_key(acc2, "disk-name"@);
    lemma_scalar_entry(ys, 3, 0, acc2, "disk-name"@, quoted_value(name));
    let acc3 = acc2.push(("disk-name"@, YNode::Scalar(name)));
    // saved
    lemma_plain_value_read(saved);
    assert(ys[4] == yline(spaces(0) + rows[4]));
    lemma_no_key(acc3, "saved"@);
    lemma_scalar_entry(ys, 4, 0, acc3, "saved"@, saved);
    let acc4 = acc3.push(("saved"@, YNode::Scalar(saved)));
    // sides
    assert(ys[5] == yline(spaces(0) + ("sides"@ + seq![':'])));
    lemma_no_key(acc4, "sides"@);
    lemma_line(2, seq!['a'] + seq![':']);
    assert(ys[6] == yline(spaces(2) + (seq!['a'] + seq![':'])));
    lemma_nested_entry(ys, 5, 0, acc4, "sides"@, 2, sides_entries(ta, tb));
    let acc5 = acc4.push(("sides"@, YNode::Mapping(sides_entries(ta, tb))));
    assert(acc5 =~= root_entries(name, saved, ta, tb));
}

/// A written image file reads, line by line, as its top-level entries.
proof fn lemma_image_yaml(name: Seq<char>, saved: Seq<char>, a: Seq<u8>, b: Seq<u8>)
    requires
        name_writable(name),
        plain_value(saved),
        0 < a.len() <= usize::MAX,
        0 < b.len() <= usize::MAX,
    ensures
        yaml_spec(header_text(name, saved) + side_text(Side::A, a) + side_text(Side::B, b)) == Ok::<YNode, YamlFault>(
            YNode::Mapping(root_entries(name, saved, joined(hex_lines(a, 0)), joined(hex_lines(b, 0)) + seq!['\n'])),
        ),
{
    let t = header_text(name, saved) + side_text(Side::A, a) + side_text(Side::B, b);
    let rows = image_rows(name, saved, a, b);
    lemma_image_joined(name, saved, a, b);
    lemma_image_single(name, saved, a, b);
    lemma_lines_joined(image_lines(name, saved, a, b));
    assert(lines_spec(t) == rows);
    lemma_rows_read(name, saved, a, b);
    lemma_no_tab(rows, 0);
    lemma_root_map(name, saved, a, b);
    assert(Seq::new(rows.len(), |i: int| yline(rows[i])) =~= image_ylines(name, saved, a, b));
}

proof fn lemma_parse_one()
    ensures
        parse_int_spec(seq!['1']) == Some(1int),
{
    let one = seq!['1'];
    assert(crate::bcd::trim_start_ws(one) == one);
    assert(trim_end_ws(one) == one);
    assert(one.drop_last() =~= Seq::<char>::empty());
    assert(crate::floppy_image::radix_value(Seq::<char>::empty(), 10) == 0);
    assert(crate::floppy_image::radix_digit('1', 10) == Some(1nat));
    assert(crate::floppy_image::radix_value(one, 10) == 1);
    assert(crate::floppy_image::radix_digits(one, 10));
}

/// A side whose mapping holds the written encoding and a text that reads as `bytes`
/// reads as `bytes`.
proof fn lemma_side_read(sides: Seq<(Seq<char>, YNode)>, s: Side, text: Seq<char>, bytes: Seq<u8>)
    requires
        mapping_at(sides, side_key(s)) == Ok::<Option<Seq<(Seq<char>, YNode)>>, FloppyFault>(
            Some(side_entries(text)),
        ),
        parse_hex_spec(vstd::utf8::encode_utf8(text), SIDE_SIZE as nat) == Ok::<Seq<u8>, HexFault>(bytes),
    ensures
        read_side(sides, s) == Ok::<Seq<u8>, FloppyFault>(bytes),
{
    let node = side_entries(text);
    lemma_side_literals();
    reveal_strlit("encoding");
    reveal_strlit("bytes");
    assert(side_keys()[0] == "encoding"@);
    assert(side_keys()[1] == "bytes"@);
    assert(side_keys().contains(node[0].0));
    assert(side_keys().contains(node[1].0));
    assert(unknown_key(node, side_keys(), 2) is None);
    assert(unknown_key(node, side_keys(), 1) is None);
    assert(unknown_key(node, side_keys(), 0) is None);
    assert(lookup(node, "encoding"@, 0) == Some(YNode::Scalar("addressed-hex"@)));
    assert(lookup(node, "bytes"@, 2) is None);
    assert(lookup(node, "bytes"@, 1) == Some(YNode::Scalar(text)));
    assert(lookup(node, "bytes"@, 0) == Some(YNode::Scalar(text)));
}

/// What the writer writes for an image, the reader reads back as that image, with the
/// `saved` text it was written with.
proof fn lemma_image_read(name: Seq<char>, saved: Seq<char>, a: Seq<u8>, b: Seq<u8>)
    requires
        name_writable(name),
        plain_value(saved),
        a.len() == SIDE_SIZE,
        b.len() == SIDE_SIZE,
    ensures
        parse_spec(header_text(name, saved) + side_text(Side::A, a) + side_text(Side::B, b)) == Ok::<
            ImageView,
            FloppyFault,
        >(ImageView { disk_name: name, saved: Some(saved), side_a: a, side_b: b }),
{
    let ta = joined(hex_lines(a, 0));
    let tb = joined(hex_lines(b, 0)) + seq!['\n'];
    let root = root_entries(name, saved, ta, tb);
    let sides = sides_entries(ta, tb);
    lemma_image_yaml(name, saved, a, b);
    lemma_file_literals();
    reveal_strlit("format");
    reveal_strlit("format-version");
    reveal_strlit("disk-name");
    reveal_strlit("saved");
    reveal_strlit("sides");
    // every key is known
    assert forall|i: int| 0 <= i < root.len() implies top_keys().contains(#[trigger] root[i].0) by {
        assert(top_keys()[i] == root[i].0);
    }
    assert(unknown_key(root, top_keys(), 5) is None);
    assert(unknown_key(root, top_keys(), 4) is None);
    assert(unknown_key(root, top_keys(), 3) is None);
    assert(unknown_key(root, top_keys(), 2) is None);
    assert(unknown_key(root, top_keys(), 1) is None);
    assert(unknown_key(root, top_keys(), 0) is None);
    // the lookups
    assert(scalar_at(root, "format"@) == Ok::<Option<Seq<char>>, FloppyFault>(Some("ce1600f-floppy"@)));
    assert(lookup(root, "format-version"@, 1) == Some(YNode::Scalar(seq!['1'])));
    assert(lookup(root, "disk-name"@, 2) == Some(YNode::Scalar(name)));
    assert(lookup(root, "disk-name"@, 1) == Some(YNode::Scalar(name)));
    assert(lookup(root, "saved"@, 3) == Some(YNode::Scalar(saved)));
    assert(lookup(root, "saved"@, 2) == Some(YNode::Scalar(saved)));
    assert(lookup(root, "saved"@, 1) == Some(YNode::Scalar(saved)));
    assert(lookup(root, "sides"@, 4) == Some(YNode::Mapping(sides)));
    assert(lookup(root, "sides"@, 3) == Some(YNode::Mapping(sides)));
    assert(lookup(root, "sides"@, 2) == Some(YNode::Mapping(sides)));
    assert(lookup(root, "sides"@, 1) == Some(YNode::Mapping(sides)));
    lemma_parse_one();
    // the sides
    reveal_strlit("a");
    reveal_strlit("b");
    let ab = seq!["a"@, "b"@];
    assert("a"@ =~= seq!['a'] && "b"@ =~= seq!['b']);
    assert(ab[0] == sides[0].0 && ab[1] == sides[1].0);
    assert(ab.contains(sides[0].0));
    assert(ab.contains(sides[1].0));
    assert(unknown_key(sides, ab, 2) is None);
    assert(unknown_key(sides, ab, 1) is None);
    assert(unknown_key(sides, ab, 0) is None);
    assert(lookup(sides, seq!['b'], 1) == Some(YNode::Mapping(side_entries(tb))));
    assert(sides[0].0 != seq!['b']) by {
        assert(sides[0].0[0] != seq!['b'][0]);
    }
    lemma_hex_text_joined(hex_lines(a, 0));
    lemma_hex_text_joined(hex_lines(b, 0));
    lemma_hex_roundtrip(a);
    lemma_hex_roundtrip_newline(b);
    lemma_side_read(sides, Side::A, ta, a);
    lemma_side_read(sides, Side::B, tb, b);
    assert(read_sides(sides) == Ok::<(Seq<u8>, Seq<u8>), FloppyFault>((a, b)));
}

/// Reading back what the writer wrote: an image whose name the writer can quote and whose
/// sides have their full size, written with a `saved` text that is a plain value, reads
/// back as the same image with that `saved` text.
pub proof fn lemma_format_parse(img: ImageView, saved: Seq<char>)
    requires
        name_writable(img.disk_name),
        img.side_a.len() == SIDE_SIZE,
        img.side_b.len() == SIDE_SIZE,
        plain_value(saved),
    ensures
        format_spec(img, saved) is Ok,
        parse_spec(format_spec(img, saved)->Ok_0) == Ok::<ImageView, FloppyFault>(
            ImageView { disk_name: img.disk_name, saved: Some(saved), side_a: img.side_a, side_b: img.side_b },
        ),
{
    lemma_image_read(img.disk_name, saved, img.side_a, img.side_b);
}

// ── the timestamp the writer puts in ─────────────────────────────────────

/// A character of a timestamp: a digit, `-`, `T`, `:` or `Z`.
pub open spec fn stamp_chars(s: Seq<char>) -> bool {
    forall|k: int|
        0 <= k < s.len() ==> ('0' <= #[trigger] s[k] <= '9') || s[k] == '-' || s[k] == 'T' || s[k] == ':' || s[k]
            == 'Z'
}

proof fn lemma_stamp_add(a: Seq<char>, b: Seq<char>)
    requires
        stamp_chars(a),
        stamp_chars(b),
    ensures
        stamp_chars(a + b),
{
    assert forall|k: int| 0 <= k < (a + b).len() implies ('0' <= #[trigger] (a + b)[k] <= '9') || (a + b)[k] == '-'
        || (a + b)[k] == 'T' || (a + b)[k] == ':' || (a + b)[k] == 'Z' by {
        if k < a.len() {
            assert((a + b)[k] == a[k]);
        } else {
            assert((a + b)[k] == b[k - a.len()]);
        }
    }
}

proof fn lemma_decimal_stamp(n: nat)
    ensures
        stamp_chars(crate::textbuf::decimal(n)),
        crate::textbuf::decimal(n).len() > 0,
    decreases n,
{
    if n >= 10 {
        lemma_decimal_stamp(n / 10);
        let d = crate::textbuf::decimal(n / 10);
        let c = crate::textbuf::digit_char(n % 10);
        assert('0' <= c <= '9');
        lemma_stamp_add(d, seq![c]);
        assert(d.push(c) =~= d + seq![c]);
    } else {
        assert('0' <= crate::textbuf::digit_char(n) <= '9');
    }
}

proof fn lemma_padded_stamp(n: nat, w: nat)
    ensures
        stamp_chars(crate::textbuf::padded_decimal(n, w)),
        crate::textbuf::padded_decimal(n, w).len() > 0,
{
    lemma_decimal_stamp(n);
    let d = crate::textbuf::decimal(n);
    if d.len() < w {
        let z = Seq::new((w - d.len()) as nat, |i: int| '0');
        assert(stamp_chars(z));
        lemma_stamp_add(z, d);
    }
}

/// The timestamp the writer puts in is a plain value.
pub proof fn lemma_stamp_plain(secs: int)
    ensures
        plain_value(crate::floppy_image::iso8601_spec(secs)),
{
    let days = secs / 86_400;
    let rem = secs % 86_400;
    let c = crate::floppy_image::civil_spec(days);
    let y = crate::floppy_image::year_text(c.0);
    lemma_padded_stamp((if c.0 >= 0 { c.0 } else { -c.0 }) as nat, 4);
    lemma_padded_stamp((-c.0) as nat, 3);
    if c.0 < 0 {
        assert(stamp_chars(seq!['-']));
        lemma_stamp_add(seq!['-'], crate::textbuf::padded_decimal((-c.0) as nat, 3));
    }
    assert(stamp_chars(y) && y.len() > 0);
    let p1 = crate::textbuf::padded_decimal(c.1 as nat, 2);
    let p2 = crate::textbuf::padded_decimal(c.2 as nat, 2);
    let p3 = crate::textbuf::padded_decimal((rem / 3600) as nat, 2);
    let p4 = crate::textbuf::padded_decimal((rem % 3600 / 60) as nat, 2);
    let p5 = crate::textbuf::padded_decimal((rem % 60) as nat, 2);
    lemma_padded_stamp(c.1 as nat, 2);
    lemma_padded_stamp(c.2 as nat, 2);
    lemma_padded_stamp((rem / 3600) as nat, 2);
    lemma_padded_stamp((rem % 3600 / 60) as nat, 2);
    lemma_padded_stamp((rem % 60) as nat, 2);
    let m = seq!['-'];
    let t = seq!['T'];
    let k = seq![':'];
    let zz = seq!['Z'];
    assert(stamp_chars(m) && stamp_chars(t) && stamp_chars(k) && stamp_chars(zz));
    lemma_stamp_add(y, m);
    lemma_stamp_add(y + m, p1);
    lemma_stamp_add(y + m + p1, m);
    lemma_stamp_add(y + m + p1 + m, p2);
    lemma_stamp_add(y + m + p1 + m + p2, t);
    lemma_stamp_add(y + m + p1 + m + p2 + t, p3);
    lemma_stamp_add(y + m + p1 + m + p2 + t + p3, k);
    lemma_stamp_add(y + m + p1 + m + p2 + t + p3 + k, p4);
    lemma_stamp_add(y + m + p1 + m + p2 + t + p3 + k + p4, k);
    lemma_stamp_add(y + m + p1 + m + p2 + t + p3 + k + p4 + k, p5);
    lemma_stamp_add(y + m + p1 + m + p2 + t + p3 + k + p4 + k + p5, zz);
    let v = crate::floppy_image::iso8601_spec(secs);
    assert(v == y + m + p1 + m + p2 + t + p3 + k + p4 + k + p5 + zz);
    assert(v[0] == y[0]);
    assert(v.last() == 'Z');
    assert(stamp_chars(v));
    assert(!is_ws(v[0])) by {
        assert(('0' <= v[0] <= '9') || v[0] == '-' || v[0] == 'T' || v[0] == ':' || v[0] == 'Z');
    }
    assert forall|i: int| 0 <= i < v.len() implies #[trigger] v[i] != '#' && v[i] != '"' && v[i] != '\'' && v[i]
        != '\n' by {
        assert(('0' <= v[i] <= '9') || v[i] == '-' || v[i] == 'T' || v[i] == ':' || v[i] == 'Z');
    }
    if v == seq!['|'] {
        assert(v.last() == '|');
    }
}

/// What `format` writes, stamped with any time, reads back as the image with that stamp.
pub proof fn lemma_format_now_parse(img: ImageView, secs: int)
    requires
        name_writable(img.disk_name),
        img.side_a.len() == SIDE_SIZE,
        img.side_b.len() == SIDE_SIZE,
    ensures
        format_spec(img, crate::floppy_image::iso8601_spec(secs)) is Ok,
        parse_spec(format_spec(img, crate::floppy_image::iso8601_spec(secs))->Ok_0) == Ok::<ImageView, FloppyFault>(
            ImageView {
                disk_name: img.disk_name,
                saved: Some(crate::floppy_image::iso8601_spec(secs)),
                side_a: img.side_a,
                side_b: img.side_b,
            },
        ),
{
    lemma_stamp_plain(secs);
    lemma_format_parse(img, crate::floppy_image::iso8601_spec(secs));
}

/// Only format-version 1 is read: a file that is otherwise a floppy image but whose
/// `format-version` reads as another integer `n` is refused with that number.
pub proof fn lemma_other_version_refused(
    t: Seq<char>,
    root: Seq<(Seq<char>, YNode)>,
    vt: Seq<char>,
    n: int,
)
    requires
        yaml_spec(t) == Ok::<YNode, YamlFault>(YNode::Mapping(root)),
        unknown_key(root, top_keys(), 0) is None,
        scalar_at(root, "format"@) == Ok::<Option<Seq<char>>, FloppyFault>(Some("ce1600f-floppy"@)),
        scalar_at(root, "format-version"@) == Ok::<Option<Seq<char>>, FloppyFault>(Some(vt)),
        parse_int_spec(vt) == Some(n),
        n != 1,
    ensures
        parse_spec(t) == Err::<ImageView, FloppyFault>(FloppyFault::UnsupportedVersion(n)),
{
}

} // verus!
