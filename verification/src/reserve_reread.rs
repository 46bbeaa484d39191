//! Reading back the SDAR text of a Reserve Area layout gives the layout.

use vstd::prelude::*;

use crate::bcd::{is_ws, trim_end_ws, trim_start_ws, trim_ws};
use crate::detect::{lines_spec, starts_with_chars};
use crate::floppy_image::reread::{joined, lemma_joined_concat, lemma_joined_push, lemma_lines_joined, single_lines};
use crate::reserve::{
    drop_space, empty_keys, empty_labels, first_colon, from_ascii_spec, key_lines, layer_text, layers_text,
    read_lines, to_ascii_spec, LayoutView, ReadState,
};
use crate::textbuf::{decimal, digit_char};
use crate::variables::parse_usize;

verus! {

/// The `[layer n]` line.
pub open spec fn layer_head(n: nat) -> Seq<char> {
    seq!['[', 'l', 'a', 'y', 'e', 'r', ' ', digit_char(n), ']']
}

/// The `label: x` line.
pub open spec fn label_line(x: Seq<char>) -> Seq<char> {
    seq!['l', 'a', 'b', 'e', 'l', ':', ' '] + x
}

/// The `key k: y` line.
pub open spec fn key_line(k: nat, y: Seq<char>) -> Seq<char> {
    seq!['k', 'e', 'y', ' ', digit_char(k), ':', ' '] + y
}

/// The six key lines of a row.
pub open spec fn key_rows(row: Seq<Seq<char>>, n: int) -> Seq<Seq<char>>
    decreases n,
{
    if n <= 0 {
        Seq::empty()
    } else {
        key_rows(row, n - 1).push(key_line(n as nat, row[n - 1]))
    }
}

/// The lines of layer `l` (its text starts with an empty line).
pub open spec fn layer_lines(v: LayoutView, l: int) -> Seq<Seq<char>> {
    seq![Seq::empty(), layer_head((l + 1) as nat), label_line(v.labels[l])] + key_rows(v.keys[l], 6)
}

pub open spec fn head_line() -> Seq<char> {
    "; sde-reserve:1.0 pc1500"@
}

pub open spec fn name_line(n: Seq<char>) -> Seq<char> {
    seq![';', ' ', 'F', 'i', 'l', 'e', 'n', 'a', 'm', 'e', ':', ' '] + n
}

/// The file-name line, if the layout names a file.
pub open spec fn name_lines(f: Option<Seq<char>>) -> Seq<Seq<char>> {
    match f {
        Some(n) => if n.len() > 0 {
            seq![name_line(n)]
        } else {
            Seq::empty()
        },
        None => Seq::empty(),
    }
}

/// The lines of the SDAR text of `v`.
pub open spec fn sdar_lines(v: LayoutView) -> Seq<Seq<char>> {
    seq![head_line()] + name_lines(v.filename) + layer_lines(v, 0) + layer_lines(v, 1) + layer_lines(v, 2)
}

proof fn lemma_small_decimal(n: nat)
    requires
        1 <= n <= 9,
    ensures
        decimal(n) == seq![digit_char(n)],
{
}

proof fn lemma_key_rows(row: Seq<Seq<char>>, n: int)
    requires
        0 <= n <= 6,
    ensures
        key_lines(row, n) == joined(key_rows(row, n)),
        key_rows(row, n).len() == n,
    decreases n,
{
    if n > 0 {
        lemma_key_rows(row, n - 1);
        lemma_small_decimal(n as nat);
        reveal_strlit("key ");
        reveal_strlit(": ");
        lemma_joined_push(key_rows(row, n - 1), key_line(n as nat, row[n - 1]));
        assert(key_lines(row, n) =~= joined(key_rows(row, n)));
    }
}

proof fn lemma_layer_joined(v: LayoutView, l: int)
    requires
        0 <= l < 3,
    ensures
        layer_text(v.labels, v.keys, l) == joined(layer_lines(v, l)),
{
    lemma_key_rows(v.keys[l], 6);
    lemma_small_decimal((l + 1) as nat);
    reveal_strlit("\n[layer ");
    reveal_strlit("]\n");
    reveal_strlit("label: ");
    let three = seq![Seq::<char>::empty(), layer_head((l + 1) as nat), label_line(v.labels[l])];
    lemma_joined_concat(three, key_rows(v.keys[l], 6));
    reveal_with_fuel(joined, 4);
    assert(joined(three) =~= seq!['\n'] + layer_head((l + 1) as nat) + seq!['\n'] + label_line(v.labels[l]) + seq![
        '\n',
    ]);
    assert(layer_text(v.labels, v.keys, l) =~= joined(layer_lines(v, l)));
}

/// The SDAR text of `v`, line by line: the format line, the file-name line when there is
/// a name, then for each layer an empty line, `[layer n]` (n from 1), `label: <label>`
/// and `key k: <text>` for keys 1 to 6; each line ended by a newline.
pub proof fn lemma_sdar_joined(v: LayoutView)
    ensures
        to_ascii_spec(v) == joined(sdar_lines(v)),
{
    reveal_strlit("; sde-reserve:1.0 pc1500\n");
    reveal_strlit("; sde-reserve:1.0 pc1500");
    reveal_strlit("; Filename: ");
    lemma_layer_joined(v, 0);
    lemma_layer_joined(v, 1);
    lemma_layer_joined(v, 2);
    let h = seq![head_line()] + name_lines(v.filename);
    reveal_with_fuel(joined, 3);
    assert(joined(h) =~= "; sde-reserve:1.0 pc1500\n"@ + match v.filename {
        Some(n) => if n.len() > 0 {
            "; Filename: "@ + n + seq!['\n']
        } else {
            Seq::empty()
        },
        None => Seq::empty(),
    });
    lemma_joined_concat(h, layer_lines(v, 0));
    lemma_joined_concat(h + layer_lines(v, 0), layer_lines(v, 1));
    lemma_joined_concat(h + layer_lines(v, 0) + layer_lines(v, 1), layer_lines(v, 2));
    reveal_with_fuel(layers_text, 4);
    assert(to_ascii_spec(v) =~= joined(sdar_lines(v)));
}

// ── reading the lines ────────────────────────────────────────────────────

/// A label, key text or file name as the text form keeps it: on one line, without white
/// space at its ends.
pub open spec fn plain_field(x: Seq<char>) -> bool {
    &&& !x.contains('\n')
    &&& x.len() > 0 ==> !is_ws(x[0]) && !is_ws(x.last())
}

proof fn lemma_prefixes()
    ensures
        "; Filename:"@ == seq![';', ' ', 'F', 'i', 'l', 'e', 'n', 'a', 'm', 'e', ':'],
        "[layer "@ == seq!['[', 'l', 'a', 'y', 'e', 'r', ' '],
        "label:"@ == seq!['l', 'a', 'b', 'e', 'l', ':'],
        "key "@ == seq!['k', 'e', 'y', ' '],
{
    reveal_strlit("; Filename:");
    reveal_strlit("[layer ");
    reveal_strlit("label:");
    reveal_strlit("key ");
    assert("; Filename:"@ =~= seq![';', ' ', 'F', 'i', 'l', 'e', 'n', 'a', 'm', 'e', ':']);
    assert("[layer "@ =~= seq!['[', 'l', 'a', 'y', 'e', 'r', ' ']);
    assert("label:"@ =~= seq!['l', 'a', 'b', 'e', 'l', ':']);
    assert("key "@ =~= seq!['k', 'e', 'y', ' ']);
}

/// A line of a fixed start `p` ending in a space, then a plain field, trims to itself, or
/// to `p` without its space when the field is empty.
proof fn lemma_trim_line(p: Seq<char>, x: Seq<char>)
    requires
        p.len() >= 2,
        !is_ws(p[0]),
        p.last() == ' ',
        !is_ws(p[p.len() - 2]),
        plain_field(x),
    ensures
        trim_ws(p + x) == if x.len() > 0 {
            p + x
        } else {
            p.drop_last()
        },
{
    let t = p + x;
    assert(t[0] == p[0]);
    assert(trim_start_ws(t) == t);
    if x.len() > 0 {
        assert(t.last() == x.last());
    } else {
        assert(t =~= p);
        assert(p.drop_last().last() == p[p.len() - 2]);
        assert(is_ws(' '));
        assert(trim_end_ws(p) == trim_end_ws(p.drop_last()));
        assert(trim_end_ws(p.drop_last()) == p.drop_last());
    }
}

proof fn lemma_digit(k: nat)
    requires
        1 <= k <= 9,
    ensures
        '1' <= digit_char(k) <= '9',
        parse_usize(trim_ws(seq![digit_char(k)])) == Some(k),
{
    let d = seq![digit_char(k)];
    assert(trim_start_ws(d) == d);
    assert(trim_end_ws(d) == d);
    assert(d.drop_last() =~= Seq::<char>::empty());
    assert(crate::variables::digits_val(Seq::<char>::empty()) == 0);
    assert(digit_char(k) as u32 == 48 + k);
    assert(crate::variables::digits_val(d) == k);
}

/// A `key k: y` line, in a layer, sets key `k` of that layer to `y`.
proof fn lemma_read_key(ls: Seq<Seq<char>>, i: int, st: ReadState, k: nat, y: Seq<char>)
    requires
        0 <= i < ls.len(),
        ls[i] == key_line(k, y),
        1 <= k <= 6,
        plain_field(y),
        st.layer is Some,
    ensures
        read_lines(ls, i, st) == read_lines(
            ls,
            i + 1,
            ReadState {
                keys: st.keys.update(st.layer->0, st.keys[st.layer->0].update(k - 1, y)),
                ..st
            },
        ),
{
    lemma_prefixes();
    lemma_digit(k);
    let p = seq!['k', 'e', 'y', ' ', digit_char(k), ':', ' '];
    lemma_trim_line(p, y);
    let l = trim_ws(ls[i]);
    assert(l[0] == 'k');
    assert(l.take(4) =~= seq!['k', 'e', 'y', ' ']);
    let rest = l.skip(4);
    assert(rest[0] == digit_char(k));
    assert(rest[1] == ':');
    assert(first_colon(rest, 1) == Some(1int));
    assert(first_colon(rest, 0) == Some(1int));
    assert(rest.take(1) =~= seq![digit_char(k)]);
    if y.len() > 0 {
        assert(rest.skip(2) =~= seq![' '] + y);
        assert((seq![' '] + y).drop_first() =~= y);
    } else {
        assert(rest.skip(2) =~= Seq::<char>::empty());
    }
    assert(drop_space(rest.skip(2)) == y);
}

/// A `label: x` line, in a layer, sets that layer's label to `x`.
#[verifier::rlimit(50)]
proof fn lemma_read_label(ls: Seq<Seq<char>>, i: int, st: ReadState, x: Seq<char>)
    requires
        0 <= i < ls.len(),
        ls[i] == label_line(x),
        plain_field(x),
        st.layer is Some,
    ensures
        read_lines(ls, i, st) == read_lines(
            ls,
            i + 1,
            ReadState { labels: st.labels.update(st.layer->0, x), ..st },
        ),
{
    lemma_prefixes();
    let p = seq!['l', 'a', 'b', 'e', 'l', ':', ' '];
    lemma_trim_line(p, x);
    let l = trim_ws(ls[i]);
    assert(l[0] == 'l');
    assert(l.len() > 0);
    assert(!starts_with_chars(l, "; Filename:"@)) by {
        if l.len() >= 11 {
            assert(l.take(11)[0] != ';');
        }
    }
    assert(l.take(6) =~= seq!['l', 'a', 'b', 'e', 'l', ':']);
    assert(starts_with_chars(l, "label:"@));
    assert(!starts_with_chars(l, "[layer "@)) by {
        if l.len() >= 7 {
            assert(l.take(7)[0] != '[');
        }
    }
    assert(l[0] != ';');
    if x.len() > 0 {
        assert(l.skip(6) =~= seq![' '] + x);
        assert((seq![' '] + x).drop_first() =~= x);
    } else {
        assert(l.skip(6) =~= Seq::<char>::empty());
    }
    assert(drop_space(l.skip(6)) == x);
}

/// A `[layer n]` line makes layer `n` the current one.
proof fn lemma_read_head(ls: Seq<Seq<char>>, i: int, st: ReadState, n: nat)
    requires
        0 <= i < ls.len(),
        ls[i] == layer_head(n),
        1 <= n <= 3,
    ensures
        read_lines(ls, i, st) == read_lines(ls, i + 1, ReadState { layer: Some(n - 1), ..st }),
{
    lemma_prefixes();
    lemma_digit(n);
    let l = ls[i];
    assert(trim_start_ws(l) == l);
    assert(trim_end_ws(l) == l);
    assert(l.take(7) =~= seq!['[', 'l', 'a', 'y', 'e', 'r', ' ']);
    assert(l.subrange(7, l.len() - 1) =~= seq![digit_char(n)]);
}

/// An empty line changes nothing.
proof fn lemma_read_empty(ls: Seq<Seq<char>>, i: int, st: ReadState)
    requires
        0 <= i < ls.len(),
        ls[i].len() == 0,
    ensures
        read_lines(ls, i, st) == read_lines(ls, i + 1, st),
{
    assert(trim_start_ws(ls[i]) == ls[i]);
}

/// The state after the first `n` key lines of a row: those keys set in the current layer.
pub open spec fn with_keys(st: ReadState, l: int, row: Seq<Seq<char>>, n: int) -> ReadState {
    ReadState { keys: st.keys.update(l, row.take(n) + st.keys[l].skip(n)), ..st }
}

proof fn lemma_read_rows(ls: Seq<Seq<char>>, i: int, st: ReadState, row: Seq<Seq<char>>, n: int)
    requires
        0 <= n <= 6,
        0 <= i,
        i + n <= ls.len(),
        row.len() == 6,
        st.layer is Some,
        0 <= st.layer->0 < st.keys.len(),
        st.keys[st.layer->0].len() == 6,
        forall|j: int| 0 <= j < n ==> #[trigger] ls[i + j] == key_line((j + 1) as nat, row[j]),
        forall|j: int| 0 <= j < 6 ==> plain_field(#[trigger] row[j]),
    ensures
        read_lines(ls, i, st) == read_lines(ls, i + n, with_keys(st, st.layer->0, row, n)),
    decreases n,
{
    let l = st.layer->0;
    if n == 0 {
        assert(row.take(0) + st.keys[l].skip(0) =~= st.keys[l]);
        assert(st.keys.update(l, st.keys[l]) =~= st.keys);
    } else {
        lemma_read_rows(ls, i, st, row, n - 1);
        let s1 = with_keys(st, l, row, n - 1);
        assert(ls[i + (n - 1)] == key_line(n as nat, row[n - 1]));
        assert(plain_field(row[n - 1]));
        lemma_read_key(ls, i + n - 1, s1, n as nat, row[n - 1]);
        assert(s1.keys[l] =~= row.take(n - 1) + st.keys[l].skip(n - 1));
        assert(s1.keys[l].update(n - 1, row[n - 1]) =~= row.take(n) + st.keys[l].skip(n));
        assert(s1.keys.update(l, s1.keys[l].update(n - 1, row[n - 1])) =~= st.keys.update(
            l,
            row.take(n) + st.keys[l].skip(n),
        ));
    }
}

/// A layout the text form holds exactly: three labels and three rows of six keys, each a
/// plain field, and a plain file name if any.
pub open spec fn plain_layout(v: LayoutView) -> bool {
    &&& v.labels.len() == 3
    &&& v.keys.len() == 3
    &&& forall|l: int| 0 <= l < 3 ==> (#[trigger] v.keys[l]).len() == 6
    &&& forall|l: int| 0 <= l < 3 ==> plain_field(#[trigger] v.labels[l])
    &&& forall|l: int, k: int| 0 <= l < 3 && 0 <= k < 6 ==> plain_field(#[trigger] v.keys[l][k])
    &&& (v.filename matches Some(n) ==> plain_field(n))
}

/// Reading the lines of layer `l` at `i` sets that layer's label and keys.
proof fn lemma_read_layer(ls: Seq<Seq<char>>, i: int, st: ReadState, v: LayoutView, l: int)
    requires
        plain_layout(v),
        0 <= l < 3,
        0 <= i,
        i + 9 <= ls.len(),
        forall|j: int| 0 <= j < 9 ==> #[trigger] ls[i + j] == layer_lines(v, l)[j],
        st.labels.len() == 3,
        st.keys.len() == 3,
        st.keys[l].len() == 6,
    ensures
        read_lines(ls, i, st) == read_lines(
            ls,
            i + 9,
            ReadState {
                layer: Some(l),
                labels: st.labels.update(l, v.labels[l]),
                keys: st.keys.update(l, v.keys[l]),
                ..st
            },
        ),
{
    let ll = layer_lines(v, l);
    lemma_key_rows(v.keys[l], 6);
    assert(ls[i + 0] == ll[0]);
    assert(ll[0].len() == 0);
    lemma_read_empty(ls, i, st);
    assert(ls[i + 1] == ll[1]);
    lemma_read_head(ls, i + 1, st, (l + 1) as nat);
    let s1 = ReadState { layer: Some(l), ..st };
    assert(ls[i + 2] == ll[2]);
    assert(plain_field(v.labels[l]));
    lemma_read_label(ls, i + 2, s1, v.labels[l]);
    let s2 = ReadState { labels: st.labels.update(l, v.labels[l]), ..s1 };
    let row = v.keys[l];
    assert forall|j: int| 0 <= j < 6 implies #[trigger] ls[i + 3 + j] == key_line((j + 1) as nat, row[j]) by {
        assert(ls[i + (3 + j)] == ll[3 + j]);
        lemma_key_row_at(row, 6, j);
    }
    assert forall|j: int| 0 <= j < 6 implies plain_field(#[trigger] row[j]) by {
        assert(plain_field(v.keys[l][j]));
    }
    lemma_read_rows(ls, i + 3, s2, row, 6);
    assert(row.take(6) + s2.keys[l].skip(6) =~= row);
}

proof fn lemma_key_row_at(row: Seq<Seq<char>>, n: int, j: int)
    requires
        0 <= j < n <= 6,
    ensures
        key_rows(row, n)[j] == key_line((j + 1) as nat, row[j]),
    decreases n,
{
    lemma_key_rows(row, n - 1);
    if j < n - 1 {
        lemma_key_row_at(row, n - 1, j);
    }
}

/// The first line, a comment, changes nothing.
proof fn lemma_read_comment(ls: Seq<Seq<char>>, i: int, st: ReadState)
    requires
        0 <= i < ls.len(),
        ls[i] == head_line(),
    ensures
        read_lines(ls, i, st) == read_lines(ls, i + 1, st),
{
    lemma_prefixes();
    reveal_strlit("; sde-reserve:1.0 pc1500");
    let l = ls[i];
    assert(trim_start_ws(l) == l);
    assert(trim_end_ws(l) == l);
    assert(!starts_with_chars(l, "; Filename:"@)) by {
        assert(l.take(11)[2] != 'F');
    }
}

/// The file-name line names the file.
proof fn lemma_read_name(ls: Seq<Seq<char>>, i: int, st: ReadState, n: Seq<char>)
    requires
        0 <= i < ls.len(),
        ls[i] == name_line(n),
        n.len() > 0,
        plain_field(n),
    ensures
        read_lines(ls, i, st) == read_lines(ls, i + 1, ReadState { filename: Some(n), ..st }),
{
    lemma_prefixes();
    let p = seq![';', ' ', 'F', 'i', 'l', 'e', 'n', 'a', 'm', 'e', ':', ' '];
    lemma_trim_line(p, n);
    let l = trim_ws(ls[i]);
    assert(l.take(11) =~= seq![';', ' ', 'F', 'i', 'l', 'e', 'n', 'a', 'm', 'e', ':']);
    let w = l.skip(11);
    assert(w =~= seq![' '] + n);
    assert(trim_start_ws(w) == trim_start_ws(n)) by {
        assert(w.drop_first() =~= n);
    }
    assert(trim_start_ws(n) == n);
    assert(trim_end_ws(n) == n);
}

proof fn lemma_no_nl(x: Seq<char>, y: Seq<char>)
    requires
        !x.contains('\n'),
        !y.contains('\n'),
    ensures
        !(x + y).contains('\n'),
{
    if (x + y).contains('\n') {
        let k = choose|k: int| 0 <= k < (x + y).len() && (x + y)[k] == '\n';
        if k < x.len() {
            assert(x[k] == (x + y)[k]);
        } else {
            assert(y[k - x.len()] == (x + y)[k]);
        }
    }
}

proof fn lemma_layer_single(v: LayoutView, l: int)
    requires
        plain_layout(v),
        0 <= l < 3,
    ensures
        forall|j: int| 0 <= j < 9 ==> !(#[trigger] layer_lines(v, l)[j]).contains('\n'),
        layer_lines(v, l).len() == 9,
{
    let ll = layer_lines(v, l);
    lemma_key_rows(v.keys[l], 6);
    assert forall|j: int| 0 <= j < 9 implies !(#[trigger] ll[j]).contains('\n') by {
        if ll[j].contains('\n') {
            if j == 0 {
            } else if j == 1 {
                let k = choose|k: int| 0 <= k < ll[j].len() && ll[j][k] == '\n';
                assert(ll[j] == layer_head((l + 1) as nat));
            } else if j == 2 {
                let p = seq!['l', 'a', 'b', 'e', 'l', ':', ' '];
                assert(!p.contains('\n')) by {
                    if p.contains('\n') {
                        let k = choose|k: int| 0 <= k < p.len() && p[k] == '\n';
                    }
                }
                lemma_no_nl(p, v.labels[l]);
            } else {
                lemma_key_row_at(v.keys[l], 6, j - 3);
                assert(plain_field(v.keys[l][j - 3]));
                let p = seq!['k', 'e', 'y', ' ', digit_char((j - 2) as nat), ':', ' '];
                assert(!p.contains('\n')) by {
                    if p.contains('\n') {
                        let k = choose|k: int| 0 <= k < p.len() && p[k] == '\n';
                    }
                }
                lemma_no_nl(p, v.keys[l][j - 3]);
            }
        }
    }
}

/// Reading back the SDAR text of a layout that the text form holds exactly gives its
/// file name (when it has a non-empty one), its labels and its keys.
pub proof fn lemma_sdar_roundtrip(v: LayoutView)
    requires
        plain_layout(v),
    ensures
        from_ascii_spec(to_ascii_spec(v)) == Some(
            ReadState {
                filename: match v.filename {
                    Some(n) => if n.len() > 0 {
                        Some(n)
                    } else {
                        None
                    },
                    None => None,
                },
                layer: Some(2),
                labels: v.labels,
                keys: v.keys,
            },
        ),
{
    let ls0 = sdar_lines(v);
    let h = seq![head_line()] + name_lines(v.filename);
    let f = name_lines(v.filename).len() as int;
    // the lines
    lemma_sdar_joined(v);
    lemma_layer_single(v, 0);
    lemma_layer_single(v, 1);
    lemma_layer_single(v, 2);
    reveal_strlit("; sde-reserve:1.0 pc1500");
    assert(single_lines(ls0)) by {
        assert forall|i: int| 0 <= i < ls0.len() implies !(#[trigger] ls0[i]).contains('\n') by {
            if i == 0 {
                if head_line().contains('\n') {
                    let k = choose|k: int| 0 <= k < head_line().len() && head_line()[k] == '\n';
                }
            } else if i < 1 + f {
                let n = v.filename->Some_0;
                let p = seq![';', ' ', 'F', 'i', 'l', 'e', 'n', 'a', 'm', 'e', ':', ' '];
                assert(!p.contains('\n')) by {
                    if p.contains('\n') {
                        let k = choose|k: int| 0 <= k < p.len() && p[k] == '\n';
                    }
                }
                lemma_no_nl(p, n);
            } else {
                let q = i - 1 - f;
                assert(ls0[i] == layer_lines(v, q / 9)[q % 9]);
            }
        }
    }
    lemma_lines_joined(ls0);
    let ls = ls0.push(Seq::empty());
    let st0 = ReadState { filename: None, layer: None, labels: empty_labels(), keys: empty_keys() };
    // the first lines
    assert(ls[0] == head_line());
    lemma_read_comment(ls, 0, st0);
    let st1 = ReadState {
        filename: match v.filename {
            Some(n) => if n.len() > 0 {
                Some(n)
            } else {
                None
            },
            None => None,
        },
        ..st0
    };
    if f == 1 {
        let n = v.filename->Some_0;
        assert(ls[1] == name_line(n));
        lemma_read_name(ls, 1, st0, n);
    }
    assert(read_lines(ls, 0, st0) == read_lines(ls, 1 + f, st1));
    // the layers
    let b = 1 + f;
    assert forall|j: int| 0 <= j < 9 implies #[trigger] ls[b + j] == layer_lines(v, 0)[j] by {}
    lemma_read_layer(ls, b, st1, v, 0);
    let st2 = ReadState {
        layer: Some(0),
        labels: st1.labels.update(0, v.labels[0]),
        keys: st1.keys.update(0, v.keys[0]),
        ..st1
    };
    assert forall|j: int| 0 <= j < 9 implies #[trigger] ls[b + 9 + j] == layer_lines(v, 1)[j] by {}
    lemma_read_layer(ls, b + 9, st2, v, 1);
    let st3 = ReadState {
        layer: Some(1),
        labels: st2.labels.update(1, v.labels[1]),
        keys: st2.keys.update(1, v.keys[1]),
        ..st2
    };
    assert forall|j: int| 0 <= j < 9 implies #[trigger] ls[b + 18 + j] == layer_lines(v, 2)[j] by {}
    lemma_read_layer(ls, b + 18, st3, v, 2);
    let st4 = ReadState {
        layer: Some(2),
        labels: st3.labels.update(2, v.labels[2]),
        keys: st3.keys.update(2, v.keys[2]),
        ..st3
    };
    // the last, empty line
    assert(ls.len() == b + 28);
    lemma_read_empty(ls, b + 27, st4);
    assert(st4.labels =~= v.labels);
    assert(st4.keys =~= v.keys);
}

} // verus!
