//! What the `addressed-hex` writer emits, the reader reads back.

use vstd::prelude::*;

use crate::floppy_image::hex::{
    all_hex, colon_at, cover, hex_digit, hex_lines, hex_lines_from, hex_value, insert_line, is_ascii_ws,
    is_line_blank, lemma_run_end, one_line, pair_value, pair_values, parse_hex_line, parse_hex_spec,
    parse_hex_usize, row_end, row_hex, run_end, sort_lines, token_end, tokens_from, trim_line, uniform,
    addr_prefix, HexFault, HexLine,
};
use crate::textbuf::{digit_char, hex, hex_char, padded_hex};

verus! {

/// ASCII characters as bytes.
pub open spec fn ascii(cs: Seq<char>) -> Seq<u8> {
    cs.map_values(|c: char| c as u8)
}

proof fn lemma_ascii_add(a: Seq<char>, b: Seq<char>)
    ensures
        ascii(a + b) == ascii(a) + ascii(b),
{
    assert(ascii(a + b) =~= ascii(a) + ascii(b));
}

proof fn lemma_hex_char(d: nat)
    requires
        d < 16,
    ensures
        hex_digit(hex_char(d) as u8) == Some(d),
        ('0' <= hex_char(d) <= '9') || ('A' <= hex_char(d) <= 'F'),
{
    if d < 10 {
        assert(hex_char(d) == digit_char(d));
        assert((('0' as u32) + d) as char as u8 == 0x30 + d) by {
            vstd::utf8::char_u32_cast((('0' as u32) + d) as char, (('0' as u32) + d) as u32);
        }
    } else {
        assert((('A' as u32) + (d - 10)) as char as u8 == 0x41 + d - 10) by {
            vstd::utf8::char_u32_cast((('A' as u32) + (d - 10)) as char, (('A' as u32) + (d - 10)) as u32);
        }
    }
}


/// The digits of `hex(n)` are hex digits reading `n`.
proof fn lemma_hex_value(n: nat)
    ensures
        all_hex(ascii(hex(n))),
        hex_value(ascii(hex(n))) == n,
        hex(n).len() >= 1,
        forall|k: int| 0 <= k < hex(n).len() ==> ('0' <= #[trigger] hex(n)[k] <= '9') || ('A' <= hex(n)[k] <= 'F'),
    decreases n,
{
    let h = hex(n);
    if n < 16 {
        lemma_hex_char(n);
        assert(ascii(h) =~= seq![hex_char(n) as u8]);
        assert(ascii(h).drop_last() =~= Seq::<u8>::empty());
        assert(ascii(h).last() == hex_char(n) as u8);
        assert(hex_value(ascii(h)) == hex_value(ascii(h).drop_last()) * 16 + hex_digit(ascii(h).last())->0);
    } else {
        lemma_hex_value(n / 16);
        lemma_hex_char(n % 16);
        let p = hex(n / 16);
        assert(h == p.push(hex_char(n % 16)));
        assert(ascii(h) =~= ascii(p).push(hex_char(n % 16) as u8));
        assert(ascii(h).drop_last() =~= ascii(p));
        assert(all_hex(ascii(h))) by {
            assert forall|i: int| 0 <= i < ascii(h).len() implies hex_digit(#[trigger] ascii(h)[i]) is Some by {
                if i < ascii(p).len() {
                    assert(ascii(h)[i] == ascii(p)[i]);
                }
            }
        }
        assert(ascii(h).last() == hex_char(n % 16) as u8);
        assert(hex_value(ascii(h)) == hex_value(ascii(h).drop_last()) * 16 + hex_digit(ascii(h).last())->0);
        assert(n == (n / 16) * 16 + n % 16);
        assert forall|k: int| 0 <= k < h.len() implies ('0' <= #[trigger] h[k] <= '9') || ('A' <= h[k] <= 'F') by {
            if k < p.len() {
                assert(h[k] == p[k]);
            }
        }
    }
}

/// `k` zeros.
pub open spec fn zeros(k: nat) -> Seq<char> {
    Seq::new(k, |i: int| '0')
}

proof fn lemma_zeros_value(z: Seq<char>, d: Seq<char>)
    requires
        forall|k: int| 0 <= k < z.len() ==> z[k] == '0',
        all_hex(ascii(d)),
    ensures
        all_hex(ascii(z + d)),
        hex_value(ascii(z + d)) == hex_value(ascii(d)),
    decreases d.len() + z.len(),
{
    lemma_ascii_add(z, d);
    assert(hex_digit('0' as u8) == Some(0nat));
    assert(all_hex(ascii(z + d))) by {
        assert forall|i: int| 0 <= i < ascii(z + d).len() implies hex_digit(#[trigger] ascii(z + d)[i]) is Some by {
            if i < z.len() {
                assert(ascii(z + d)[i] == z[i] as u8);
            } else {
                assert(ascii(z + d)[i] == ascii(d)[i - z.len()]);
            }
        }
    }
    if d.len() > 0 {
        assert(all_hex(ascii(d.drop_last()))) by {
            assert forall|i: int| 0 <= i < ascii(d.drop_last()).len() implies hex_digit(
                #[trigger] ascii(d.drop_last())[i],
            ) is Some by {
                assert(ascii(d.drop_last())[i] == ascii(d)[i]);
            }
        }
        lemma_zeros_value(z, d.drop_last());
        assert((z + d).drop_last() =~= z + d.drop_last());
        assert(ascii(z + d).drop_last() =~= ascii(z + d.drop_last()));
        assert(ascii(d).drop_last() =~= ascii(d.drop_last()));
        assert(ascii(z + d).last() == ascii(d).last());
    } else if z.len() > 0 {
        assert(z + d =~= z);
        lemma_zeros_value(z.drop_last(), d);
        assert(z.drop_last() + d =~= z.drop_last());
        assert(ascii(z).drop_last() =~= ascii(z.drop_last()));
    } else {
        assert(z + d =~= d);
    }
}

/// The digits of `padded_hex(n, w)` are hex digits reading `n`.
proof fn lemma_padded_value(n: nat, w: nat)
    ensures
        all_hex(ascii(padded_hex(n, w))),
        hex_value(ascii(padded_hex(n, w))) == n,
        padded_hex(n, w).len() >= 1,
        forall|k: int| 0 <= k < padded_hex(n, w).len() ==> ('0' <= #[trigger] padded_hex(n, w)[k] <= '9') || (
        'A' <= padded_hex(n, w)[k] <= 'F'),
{
    lemma_hex_value(n);
    let d = hex(n);
    if d.len() < w {
        let z = Seq::new((w - d.len()) as nat, |i: int| '0');
        lemma_zeros_value(z, d);
        assert forall|k: int| 0 <= k < padded_hex(n, w).len() implies ('0' <= #[trigger] padded_hex(n, w)[k] <= '9')
            || ('A' <= padded_hex(n, w)[k] <= 'F') by {
            if k >= z.len() {
                assert(padded_hex(n, w)[k] == d[k - z.len()]);
            }
        }
    }
}

/// A byte written as two hex digits reads back as itself.
proof fn lemma_pair(v: u8)
    ensures
        padded_hex(v as nat, 2).len() == 2,
        pair_value(ascii(padded_hex(v as nat, 2))) == Some(v),
{
    lemma_padded_value(v as nat, 2);
    let p = padded_hex(v as nat, 2);
    let h = hex(v as nat);
    if v < 16 {
        assert(h.len() == 1);
    } else {
        assert(hex(v as nat / 16).len() == 1);
        assert(h.len() == 2);
    }
    let a = ascii(p);
    assert(a.len() == 2);
    assert(a.drop_last().drop_last() =~= Seq::<u8>::empty());
    assert(a.drop_last() =~= seq![a[0]]);
    assert(hex_value(a) == hex_digit(a[0])->0 * 16 + hex_digit(a[1])->0);
}


// ── tokens ───────────────────────────────────────────────────────────────

pub open spec fn all_ws(s: Seq<u8>) -> bool {
    forall|k: int| 0 <= k < s.len() ==> is_ascii_ws(#[trigger] s[k])
}

pub open spec fn no_ws(s: Seq<u8>) -> bool {
    forall|k: int| 0 <= k < s.len() ==> !is_ascii_ws(#[trigger] s[k])
}

proof fn lemma_token_end_at(d: Seq<u8>, i: int, e: int)
    requires
        0 <= i <= e <= d.len(),
        e < d.len() ==> is_ascii_ws(d[e]),
        forall|k: int| i <= k < e ==> !is_ascii_ws(#[trigger] d[k]),
    ensures
        token_end(d, i) == e,
    decreases e - i,
{
    if i < e {
        lemma_token_end_at(d, i + 1, e);
    }
}

proof fn lemma_token_end_full(d: Seq<u8>, i: int)
    requires
        0 <= i <= d.len(),
    ensures
        i <= token_end(d, i) <= d.len(),
        forall|k: int| i <= k < token_end(d, i) ==> !is_ascii_ws(#[trigger] d[k]),
        token_end(d, i) < d.len() ==> is_ascii_ws(d[token_end(d, i)]),
        i < d.len() && !is_ascii_ws(d[i]) ==> token_end(d, i) > i,
    decreases d.len() - i,
{
    if i < d.len() && !is_ascii_ws(d[i]) {
        lemma_token_end_full(d, i + 1);
    }
}

proof fn lemma_tokens_none(d: Seq<u8>, i: int)
    requires
        0 <= i,
        forall|k: int| i <= k < d.len() ==> is_ascii_ws(#[trigger] d[k]),
    ensures
        tokens_from(d, i) == Seq::<Seq<u8>>::empty(),
    decreases d.len() - i,
{
    if i < d.len() {
        lemma_tokens_none(d, i + 1);
    }
}

proof fn lemma_tokens_shift(x: Seq<u8>, y: Seq<u8>, j: int)
    requires
        0 <= j <= y.len(),
    ensures
        tokens_from(x + y, x.len() + j) == tokens_from(y, j),
    decreases y.len() - j,
{
    let t = x + y;
    let n = x.len() as int;
    if j < y.len() {
        assert(t[n + j] == y[j]);
        if is_ascii_ws(y[j]) {
            lemma_tokens_shift(x, y, j + 1);
        } else {
            lemma_token_end_full(y, j);
            let e = token_end(y, j);
            assert forall|k: int| n + j <= k < n + e implies !is_ascii_ws(#[trigger] t[k]) by {
                assert(t[k] == y[k - n]);
            }
            if e < y.len() {
                assert(t[n + e] == y[e]);
            }
            lemma_token_end_at(t, n + j, n + e);
            lemma_token_end_at(y, j, e);
            assert(t.subrange(n + j, n + e) =~= y.subrange(j, e));
            lemma_tokens_shift(x, y, e);
        }
    }
}

/// Tokens of `x + y`, `x` ending in white space, are those of `x`, then of `y`.
proof fn lemma_tokens_split(x: Seq<u8>, y: Seq<u8>, i: int)
    requires
        0 <= i <= x.len(),
        x.len() > 0 ==> is_ascii_ws(x.last()),
    ensures
        tokens_from(x + y, i) == tokens_from(x, i) + tokens_from(y, 0),
    decreases x.len() - i,
{
    let t = x + y;
    if i == x.len() {
        lemma_tokens_shift(x, y, 0);
        assert(tokens_from(x, i) =~= Seq::<Seq<u8>>::empty());
        assert(tokens_from(x, i) + tokens_from(y, 0) =~= tokens_from(y, 0));
    } else {
        assert(t[i] == x[i]);
        if is_ascii_ws(x[i]) {
            lemma_tokens_split(x, y, i + 1);
        } else {
            lemma_token_end_full(x, i);
            let e = token_end(x, i);
            if e == x.len() {
                assert(!is_ascii_ws(x[x.len() - 1]));
            }
            assert(e < x.len());
            assert(is_ascii_ws(x[e]));
            assert forall|k: int| i <= k < e implies !is_ascii_ws(#[trigger] t[k]) by {
                assert(t[k] == x[k]);
            }
            assert(t[e] == x[e]);
            lemma_token_end_at(t, i, e);
            assert(t.subrange(i, e) =~= x.subrange(i, e));
            lemma_tokens_split(x, y, e);
            assert(seq![x.subrange(i, e)] + (tokens_from(x, e) + tokens_from(y, 0)) =~= seq![x.subrange(i, e)]
                + tokens_from(x, e) + tokens_from(y, 0));
        }
    }
}

/// Trailing white space adds no token.
proof fn lemma_tokens_trailing(x: Seq<u8>, w: Seq<u8>, i: int)
    requires
        0 <= i <= x.len(),
        all_ws(w),
    ensures
        tokens_from(x + w, i) == tokens_from(x, i),
    decreases x.len() - i,
{
    let t = x + w;
    if i == x.len() {
        lemma_tokens_shift(x, w, 0);
        lemma_tokens_none(w, 0);
    } else {
        assert(t[i] == x[i]);
        if is_ascii_ws(x[i]) {
            lemma_tokens_trailing(x, w, i + 1);
        } else {
            lemma_token_end_full(x, i);
            let e = token_end(x, i);
            assert forall|k: int| i <= k < e implies !is_ascii_ws(#[trigger] t[k]) by {
                assert(t[k] == x[k]);
            }
            if e < x.len() {
                assert(t[e] == x[e]);
            } else if w.len() > 0 {
                assert(t[e] == w[0]);
            }
            lemma_token_end_at(t, i, e);
            assert(t.subrange(i, e) =~= x.subrange(i, e));
            lemma_tokens_trailing(x, w, e);
        }
    }
}

/// White space, then one run of other bytes: that run is the one token.
proof fn lemma_tokens_single(w: Seq<u8>, p: Seq<u8>, i: int)
    requires
        all_ws(w),
        p.len() > 0,
        no_ws(p),
        0 <= i <= w.len(),
    ensures
        tokens_from(w + p, i) == seq![p],
    decreases w.len() - i,
{
    let t = w + p;
    if i < w.len() {
        assert(t[i] == w[i]);
        lemma_tokens_single(w, p, i + 1);
    } else {
        assert(t[i] == p[0]);
        assert forall|k: int| i <= k < t.len() implies !is_ascii_ws(#[trigger] t[k]) by {
            assert(t[k] == p[k - w.len()]);
        }
        lemma_token_end_at(t, i, t.len() as int);
        assert(t.subrange(i, t.len() as int) =~= p);
        assert(tokens_from(t, t.len() as int) =~= Seq::<Seq<u8>>::empty());
        assert(seq![p] + Seq::<Seq<u8>>::empty() =~= seq![p]);
    }
}


/// The two hex digits of each byte.
pub open spec fn pairs(row: Seq<u8>) -> Seq<Seq<u8>> {
    Seq::new(row.len(), |k: int| ascii(padded_hex(row[k] as nat, 2)))
}

proof fn lemma_pair_text(v: u8)
    ensures
        ascii(padded_hex(v as nat, 2)).len() == 2,
        no_ws(ascii(padded_hex(v as nat, 2))),
        all_hex(ascii(padded_hex(v as nat, 2))),
        pair_value(ascii(padded_hex(v as nat, 2))) == Some(v),
{
    lemma_pair(v);
    lemma_padded_value(v as nat, 2);
    let p = padded_hex(v as nat, 2);
    assert forall|k: int| 0 <= k < ascii(p).len() implies !is_ascii_ws(#[trigger] ascii(p)[k]) by {
        assert(ascii(p)[k] == p[k] as u8);
        assert(('0' <= p[k] <= '9') || ('A' <= p[k] <= 'F'));
    }
}

/// The tokens of a data row's text (after the space behind the colon) are its bytes'
/// digit pairs.
proof fn lemma_row_tokens(row: Seq<u8>)
    ensures
        tokens_from(ascii(seq![' '] + row_hex(row)), 0) == pairs(row),
    decreases row.len(),
{
    if row.len() == 0 {
        assert(row_hex(row) =~= Seq::<char>::empty());
        assert(ascii(seq![' '] + row_hex(row)) =~= seq![0x20u8]);
        lemma_tokens_none(seq![0x20u8], 0);
        assert(pairs(row) =~= Seq::<Seq<u8>>::empty());
    } else {
        let d = row.drop_last();
        let v = row.last();
        lemma_row_tokens(d);
        lemma_pair_text(v);
        let sep: Seq<char> = if row.len() == 1 {
            Seq::empty()
        } else if row.len() == 9 {
            seq![' ', ' ']
        } else {
            seq![' ']
        };
        assert(row_hex(row) == row_hex(d) + sep + padded_hex(v as nat, 2));
        let head = ascii(seq![' '] + row_hex(d));
        let x = head + ascii(sep);
        let p = ascii(padded_hex(v as nat, 2));
        assert(ascii(seq![' '] + row_hex(row)) =~= x + p);
        if row.len() == 1 {
            assert(row_hex(d) =~= Seq::<char>::empty());
            assert(x =~= seq![0x20u8]);
        } else {
            assert(x.last() == 0x20u8);
        }
        lemma_tokens_split(x, p, 0);
        lemma_tokens_single(Seq::<u8>::empty(), p, 0);
        assert(Seq::<u8>::empty() + p =~= p);
        assert(all_ws(ascii(sep)));
        lemma_tokens_trailing(head, ascii(sep), 0);
        assert(pairs(row) =~= pairs(d).push(p));
        assert(pairs(d) + seq![p] =~= pairs(d).push(p));
    }
}

proof fn lemma_pair_values(row: Seq<u8>)
    ensures
        pair_values(pairs(row)) == Some(row),
    decreases row.len(),
{
    if row.len() > 0 {
        lemma_pair_values(row.drop_last());
        lemma_pair_text(row.last());
        assert(pairs(row).drop_last() =~= pairs(row.drop_last()));
        assert(row.drop_last().push(row.last()) =~= row);
    } else {
        assert(pairs(row) =~= Seq::<Seq<u8>>::empty());
        assert(row =~= Seq::<u8>::empty());
    }
}


// ── one line ─────────────────────────────────────────────────────────────

proof fn lemma_colon_after(h: Seq<u8>, tail: Seq<u8>, i: int)
    requires
        0 <= i <= h.len(),
        all_hex(h),
        tail.len() > 0,
        tail[0] == 0x3A,
    ensures
        colon_at(h + tail, i) == Some(h.len() as int),
    decreases h.len() - i,
{
    let t = h + tail;
    if i < h.len() {
        assert(t[i] == h[i]);
        assert(hex_digit(h[i]) is Some);
        lemma_colon_after(h, tail, i + 1);
    } else {
        assert(t[i] == tail[0]);
    }
}

/// The address digits read back as the address.
proof fn lemma_addr(a: nat)
    requires
        a <= usize::MAX,
    ensures
        parse_hex_usize(ascii(padded_hex(a, 4))) == Some(a),
        all_hex(ascii(padded_hex(a, 4))),
{
    lemma_padded_value(a, 4);
    let d = ascii(padded_hex(a, 4));
    assert(hex_digit(d[0]) is Some);
}

/// The parsed line of `$ADDR: ` followed by `body` (whose text after the space behind
/// the colon has the tokens `toks`).
proof fn lemma_line_shape(a: nat, body: Seq<char>)
    requires
        a <= usize::MAX,
    ensures
        ({
            let s = ascii(addr_prefix(a as int) + body);
            let rest = s.drop_first();
            let q = padded_hex(a, 4).len() as int;
            &&& s.len() > 0 && s[0] == 0x24
            &&& colon_at(rest, 0) == Some(q)
            &&& parse_hex_usize(rest.take(q)) == Some(a)
            &&& rest.skip(q + 1) == ascii(seq![' '] + body)
        }),
{
    lemma_addr(a);
    let h = ascii(padded_hex(a, 4));
    let s = ascii(addr_prefix(a as int) + body);
    assert(addr_prefix(a as int) + body =~= seq!['$'] + (padded_hex(a, 4) + (seq![':'] + (seq![' '] + body))));
    lemma_ascii_add(seq!['$'], padded_hex(a, 4) + (seq![':'] + (seq![' '] + body)));
    lemma_ascii_add(padded_hex(a, 4), seq![':'] + (seq![' '] + body));
    lemma_ascii_add(seq![':'], seq![' '] + body);
    let tail = ascii(seq![':'] + (seq![' '] + body));
    let rest = s.drop_first();
    assert(rest =~= h + tail);
    assert(tail[0] == 0x3A);
    lemma_colon_after(h, tail, 0);
    assert(rest.take(h.len() as int) =~= h);
    assert(rest.skip(h.len() as int + 1) =~= ascii(seq![' '] + body));
}

proof fn lemma_uniform_short(b: Seq<u8>, i: int, re: int)
    requires
        0 <= i < re,
        re == i + 1,
    ensures
        uniform(b, i, re, b[i]),
{
}

/// A written data row reads back as that row at its address.
proof fn lemma_data_line(a: nat, row: Seq<u8>)
    requires
        a <= usize::MAX,
        row.len() >= 2,
    ensures
        one_line(ascii(addr_prefix(a as int) + row_hex(row))) == Ok::<Seq<HexLine>, HexFault>(
            seq![HexLine { addr: a, run: None, bytes: row }],
        ),
{
    let body = row_hex(row);
    lemma_line_shape(a, body);
    let s = ascii(addr_prefix(a as int) + body);
    lemma_row_tokens(row);
    lemma_pair_values(row);
    // the line ends in a hex digit
    lemma_pair_text(row.last());
    assert(row_hex(row) == row_hex(row.drop_last()) + (if row.len() == 9 {
        seq![' ', ' ']
    } else {
        seq![' ']
    }) + padded_hex(row.last() as nat, 2));
    assert(s.last() == ascii(padded_hex(row.last() as nat, 2)).last());
    assert(!is_line_blank(s.last()));
    assert(trim_line(s) == s);
    let q = padded_hex(a, 4).len() as int;
    assert(tokens_from(s.drop_first().skip(q + 1), 0) == pairs(row));
    assert(pairs(row).len() == row.len());
}

/// A written run line reads back as the run at its address.
proof fn lemma_run_line(a: nat, v: u8)
    requires
        a <= usize::MAX,
    ensures
        one_line(ascii(addr_prefix(a as int) + padded_hex(v as nat, 2) + seq!['.', '.', '.'])) == Ok::<
            Seq<HexLine>,
            HexFault,
        >(seq![HexLine { addr: a, run: Some(v), bytes: Seq::empty() }]),
{
    let body = padded_hex(v as nat, 2) + seq!['.', '.', '.'];
    assert(addr_prefix(a as int) + padded_hex(v as nat, 2) + seq!['.', '.', '.'] =~= addr_prefix(a as int) + body);
    lemma_line_shape(a, body);
    let s = ascii(addr_prefix(a as int) + body);
    lemma_pair_text(v);
    let p = ascii(padded_hex(v as nat, 2));
    let dots = seq![0x2Eu8, 0x2E, 0x2E];
    let tok = p + dots;
    assert(ascii(seq![' '] + body) =~= seq![0x20u8] + tok);
    assert(no_ws(tok)) by {
        assert forall|k: int| 0 <= k < tok.len() implies !is_ascii_ws(#[trigger] tok[k]) by {
            if k < 2 {
                assert(tok[k] == p[k]);
            }
        }
    }
    lemma_tokens_single(seq![0x20u8], tok, 0);
    assert(tok.skip(2) =~= dots);
    assert(tok.take(2) =~= p);
    assert(s.last() == 0x2Eu8);
    assert(trim_line(s) == s);
}


// ── whole blocks ─────────────────────────────────────────────────────────

/// The lines, each ended by a newline (as a block scalar holds them).
pub open spec fn hex_text(ls: Seq<Seq<char>>) -> Seq<char>
    decreases ls.len(),
{
    if ls.len() == 0 {
        Seq::empty()
    } else {
        ls[0] + seq!['\n'] + hex_text(ls.drop_first())
    }
}

/// The lines the writer emits for `b` from `i` on, as the reader parses them.
pub open spec fn parsed_lines(b: Seq<u8>, i: int) -> Seq<HexLine>
    decreases b.len() - i,
{
    if i < 0 || i >= b.len() {
        Seq::empty()
    } else {
        let re = row_end(b.len() as int, i);
        let first = b[i];
        if !uniform(b, i, re, first) {
            seq![HexLine { addr: i as nat, run: None, bytes: b.subrange(i, re) }] + parsed_lines(b, re)
        } else {
            let e = run_end(b, first, re);
            proof {
                lemma_run_end(b, first, re);
            }
            seq![HexLine { addr: i as nat, run: Some(first), bytes: Seq::empty() }] + parsed_lines(b, e)
        }
    }
}

/// A character the writer puts on a line.
pub open spec fn line_char(c: char) -> bool {
    c == '$' || c == ':' || c == ' ' || c == '.' || ('0' <= c <= '9') || ('A' <= c <= 'F')
}

pub open spec fn line_chars(l: Seq<char>) -> bool {
    forall|k: int| 0 <= k < l.len() ==> line_char(#[trigger] l[k])
}

proof fn lemma_padded_chars(n: nat, w: nat)
    ensures
        line_chars(padded_hex(n, w)),
{
    lemma_padded_value(n, w);
}

proof fn lemma_row_chars(row: Seq<u8>)
    ensures
        line_chars(row_hex(row)),
    decreases row.len(),
{
    if row.len() > 0 {
        lemma_row_chars(row.drop_last());
        lemma_padded_chars(row.last() as nat, 2);
        let sep: Seq<char> = if row.len() == 1 {
            Seq::empty()
        } else if row.len() == 9 {
            seq![' ', ' ']
        } else {
            seq![' ']
        };
        let a = row_hex(row.drop_last());
        let p = padded_hex(row.last() as nat, 2);
        assert(row_hex(row) == a + sep + p);
        assert forall|k: int| 0 <= k < row_hex(row).len() implies line_char(#[trigger] row_hex(row)[k]) by {
            if k < a.len() {
                assert(row_hex(row)[k] == a[k]);
            } else if k < a.len() + sep.len() {
                assert(row_hex(row)[k] == sep[k - a.len()]);
            } else {
                assert(row_hex(row)[k] == p[k - a.len() - sep.len()]);
            }
        }
    }
}

proof fn lemma_concat_chars(a: Seq<char>, b: Seq<char>)
    requires
        line_chars(a),
        line_chars(b),
    ensures
        line_chars(a + b),
{
    assert forall|k: int| 0 <= k < (a + b).len() implies line_char(#[trigger] (a + b)[k]) by {
        if k < a.len() {
            assert((a + b)[k] == a[k]);
        } else {
            assert((a + b)[k] == b[k - a.len()]);
        }
    }
}

proof fn lemma_line_bytes(l: Seq<char>)
    requires
        line_chars(l),
    ensures
        forall|k: int| 0 <= k < ascii(l).len() ==> #[trigger] ascii(l)[k] != 0x0A,
        vstd::utf8::is_ascii_chars(l),
{
    assert forall|k: int| 0 <= k < ascii(l).len() implies #[trigger] ascii(l)[k] != 0x0A by {
        assert(line_char(l[k]));
    }
}

/// The first written line of `b` at `i`, the next line's address, and its parse.
proof fn lemma_first_line(b: Seq<u8>, i: int)
    requires
        0 <= i < b.len(),
        b.len() <= usize::MAX,
    ensures
        hex_lines(b, i).len() > 0,
        line_chars(hex_lines(b, i)[0]),
        one_line(ascii(hex_lines(b, i)[0])) == Ok::<Seq<HexLine>, HexFault>(seq![parsed_lines(b, i)[0]]),
        hex_lines(b, i).drop_first() == hex_lines(b, (if !uniform(b, i, row_end(b.len() as int, i), b[i]) {
            row_end(b.len() as int, i)
        } else {
            run_end(b, b[i], row_end(b.len() as int, i))
        })),
        parsed_lines(b, i).drop_first() == parsed_lines(b, (if !uniform(b, i, row_end(b.len() as int, i), b[i]) {
            row_end(b.len() as int, i)
        } else {
            run_end(b, b[i], row_end(b.len() as int, i))
        })),
{
    let re = row_end(b.len() as int, i);
    let first = b[i];
    let a = i as nat;
    assert(seq!['$'] + padded_hex(a, 4) + seq![':', ' '] == addr_prefix(i));
    lemma_padded_chars(a, 4);
    assert(line_chars(seq!['$']));
    assert(line_chars(seq![':', ' ']));
    lemma_concat_chars(seq!['$'], padded_hex(a, 4));
    lemma_concat_chars(seq!['$'] + padded_hex(a, 4), seq![':', ' ']);
    if !uniform(b, i, re, first) {
        let row = b.subrange(i, re);
        if re == i + 1 {
            lemma_uniform_short(b, i, re);
        }
        lemma_data_line(a, row);
        lemma_row_chars(row);
        lemma_concat_chars(addr_prefix(i), row_hex(row));
        let l = addr_prefix(i) + row_hex(row);
        assert(hex_lines(b, i) == seq![l] + hex_lines(b, re));
        assert((seq![l] + hex_lines(b, re)).drop_first() =~= hex_lines(b, re));
        let pl = HexLine { addr: a, run: None, bytes: row };
        assert((seq![pl] + parsed_lines(b, re)).drop_first() =~= parsed_lines(b, re));
    } else {
        lemma_run_end(b, first, re);
        let e = run_end(b, first, re);
        lemma_run_line(a, first);
        lemma_padded_chars(first as nat, 2);
        lemma_concat_chars(addr_prefix(i), padded_hex(first as nat, 2));
        assert(line_chars(seq!['.', '.', '.']));
        lemma_concat_chars(addr_prefix(i) + padded_hex(first as nat, 2), seq!['.', '.', '.']);
        let l = addr_prefix(i) + padded_hex(first as nat, 2) + seq!['.', '.', '.'];
        assert(hex_lines(b, i) == seq![l] + hex_lines(b, e));
        assert((seq![l] + hex_lines(b, e)).drop_first() =~= hex_lines(b, e));
        let pl = HexLine { addr: a, run: Some(first), bytes: Seq::empty() };
        assert((seq![pl] + parsed_lines(b, e)).drop_first() =~= parsed_lines(b, e));
    }
}

/// Reading `x + y` from inside `y`.
proof fn lemma_lines_shift(x: Seq<u8>, y: Seq<u8>, s: int, j: int)
    requires
        0 <= s <= j <= y.len(),
    ensures
        hex_lines_from(x + y, x.len() + s, x.len() + j) == hex_lines_from(y, s, j),
    decreases y.len() - j,
{
    let t = x + y;
    let n = x.len() as int;
    if j >= y.len() {
        assert(t.subrange(n + s, t.len() as int) =~= y.subrange(s, y.len() as int));
    } else {
        assert(t[n + j] == y[j]);
        if y[j] == 0x0A {
            assert(t.subrange(n + s, n + j) =~= y.subrange(s, j));
            lemma_lines_shift(x, y, j + 1, j + 1);
        } else {
            lemma_lines_shift(x, y, s, j + 1);
        }
    }
}

/// A first line, its newline, then the rest.
proof fn lemma_lines_first(l: Seq<u8>, y: Seq<u8>, i: int)
    requires
        0 <= i <= l.len(),
        forall|k: int| 0 <= k < l.len() ==> #[trigger] l[k] != 0x0A,
    ensures
        hex_lines_from(l + seq![0x0Au8] + y, 0, i) == match one_line(l) {
            Err(f) => Err(f),
            Ok(a) => match hex_lines_from(y, 0, 0) {
                Err(f) => Err(f),
                Ok(r) => Ok(a + r),
            },
        },
    decreases l.len() - i,
{
    let x = l + seq![0x0Au8];
    let t = x + y;
    if i == l.len() {
        assert(t[i] == 0x0Au8);
        assert(t.subrange(0, i) =~= l);
        lemma_lines_shift(x, y, 0, 0);
    } else {
        assert(t[i] == l[i]);
        lemma_lines_first(l, y, i + 1);
    }
}

/// The written lines of `b` from `i` on read back as `parsed_lines(b, i)`.
proof fn lemma_text_lines(b: Seq<u8>, i: int)
    requires
        0 <= i <= b.len(),
        b.len() <= usize::MAX,
    ensures
        hex_lines_from(ascii(hex_text(hex_lines(b, i))), 0, 0) == Ok::<Seq<HexLine>, HexFault>(parsed_lines(b, i)),
        vstd::utf8::is_ascii_chars(hex_text(hex_lines(b, i))),
    decreases b.len() - i,
{
    if i == b.len() {
        assert(hex_lines(b, i) =~= Seq::<Seq<char>>::empty());
        assert(ascii(hex_text(hex_lines(b, i))) =~= Seq::<u8>::empty());
        assert(Seq::<u8>::empty().subrange(0, 0) =~= Seq::<u8>::empty());
        assert(trim_line(Seq::<u8>::empty()) =~= Seq::<u8>::empty());
    } else {
        lemma_first_line(b, i);
        let re = row_end(b.len() as int, i);
        let next = if !uniform(b, i, re, b[i]) {
            re
        } else {
            run_end(b, b[i], re)
        };
        lemma_run_end(b, b[i], re);
        lemma_text_lines(b, next);
        let ls = hex_lines(b, i);
        let l = ls[0];
        let rest_text = hex_text(ls.drop_first());
        assert(hex_text(ls) == l + seq!['\n'] + rest_text);
        lemma_ascii_add(l + seq!['\n'], rest_text);
        lemma_ascii_add(l, seq!['\n']);
        assert(ascii(seq!['\n']) =~= seq![0x0Au8]);
        lemma_line_bytes(l);
        lemma_lines_first(ascii(l), ascii(rest_text), 0);
        let pl = parsed_lines(b, i);
        assert(pl =~= seq![pl[0]] + pl.drop_first());
        assert(vstd::utf8::is_ascii_chars(hex_text(ls))) by {
            let t = hex_text(ls);
            assert forall|k: int| 0 <= k < t.len() implies '\0' <= #[trigger] t[k] <= '\u{7f}' by {
                if k < l.len() {
                    assert(t[k] == l[k]);
                    assert(line_char(l[k]));
                } else if k > l.len() {
                    assert(t[k] == rest_text[k - l.len() - 1]);
                }
            }
        }
    }
}

/// Every parsed line from `i` on starts at or after `i`, in increasing order.
proof fn lemma_parsed_order(b: Seq<u8>, i: int)
    requires
        0 <= i <= b.len(),
    ensures
        forall|k: int| 0 <= k < parsed_lines(b, i).len() ==> (#[trigger] parsed_lines(b, i)[k]).addr >= i,
        forall|k: int|
            0 <= k < parsed_lines(b, i).len() - 1 ==> (#[trigger] parsed_lines(b, i)[k]).addr
                < parsed_lines(b, i)[k + 1].addr,
        parsed_lines(b, i).len() > 0 ==> parsed_lines(b, i)[0].addr == i,
        parsed_lines(b, i).len() == 0 <==> i == b.len(),
    decreases b.len() - i,
{
    if i < b.len() {
        let re = row_end(b.len() as int, i);
        lemma_run_end(b, b[i], re);
        let next = if !uniform(b, i, re, b[i]) {
            re
        } else {
            run_end(b, b[i], re)
        };
        lemma_parsed_order(b, next);
        let pl = parsed_lines(b, i);
        let rest = parsed_lines(b, next);
        assert(pl.len() == rest.len() + 1);
        assert forall|k: int| 0 <= k < pl.len() implies (#[trigger] pl[k]).addr >= i by {
            if k > 0 {
                assert(pl[k] == rest[k - 1]);
            }
        }
        assert forall|k: int| 0 <= k < pl.len() - 1 implies (#[trigger] pl[k]).addr < pl[k + 1].addr by {
            assert(pl[k + 1] == rest[k]);
            if k > 0 {
                assert(pl[k] == rest[k - 1]);
            }
        }
    }
}

/// Lines already in address order stay as they are.
proof fn lemma_sorted_stays(ls: Seq<HexLine>)
    requires
        forall|k: int| 0 <= k < ls.len() - 1 ==> (#[trigger] ls[k]).addr < ls[k + 1].addr,
    ensures
        sort_lines(ls) == ls,
    decreases ls.len(),
{
    if ls.len() > 0 {
        let d = ls.drop_last();
        assert forall|k: int| 0 <= k < d.len() - 1 implies (#[trigger] d[k]).addr < d[k + 1].addr by {
            assert(d[k] == ls[k] && d[k + 1] == ls[k + 1]);
        }
        lemma_sorted_stays(d);
        if d.len() > 0 {
            assert(d.last() == ls[ls.len() - 2]);
        }
        assert(d.push(ls.last()) =~= ls);
    }
}

/// The parsed lines from the one at `k` (the cursor at `i`) cover `b[i..]`.
proof fn lemma_cover(b: Seq<u8>, pre: Seq<HexLine>, i: int)
    requires
        0 <= i <= b.len(),
    ensures
        cover(pre + parsed_lines(b, i), pre.len() as int, i as nat, b.len()) == Ok::<Seq<u8>, HexFault>(
            b.subrange(i, b.len() as int),
        ),
    decreases b.len() - i,
{
    let ls = pre + parsed_lines(b, i);
    let k = pre.len() as int;
    lemma_parsed_order(b, i);
    if i == b.len() {
        assert(b.subrange(i, i) =~= Seq::<u8>::empty());
    } else {
        let re = row_end(b.len() as int, i);
        let first = b[i];
        lemma_run_end(b, first, re);
        assert(ls[k] == parsed_lines(b, i)[0]);
        if !uniform(b, i, re, first) {
            let pl = HexLine { addr: i as nat, run: None, bytes: b.subrange(i, re) };
            assert(parsed_lines(b, i) == seq![pl] + parsed_lines(b, re));
            assert(ls =~= pre.push(pl) + parsed_lines(b, re));
            lemma_cover(b, pre.push(pl), re);
            assert(b.subrange(i, re) + b.subrange(re, b.len() as int) =~= b.subrange(i, b.len() as int));
        } else {
            let e = run_end(b, first, re);
            let pl = HexLine { addr: i as nat, run: Some(first), bytes: Seq::empty() };
            assert(parsed_lines(b, i) == seq![pl] + parsed_lines(b, e));
            assert(ls =~= pre.push(pl) + parsed_lines(b, e));
            lemma_parsed_order(b, e);
            if e < b.len() {
                assert(ls[k + 1] == parsed_lines(b, e)[0]);
            }
            lemma_cover(b, pre.push(pl), e);
            assert(Seq::new((e - i) as nat, |q: int| first) =~= b.subrange(i, e)) by {
                assert forall|q: int| 0 <= q < e - i implies b.subrange(i, e)[q] == first by {
                    assert(b.subrange(i, e)[q] == b[i + q]);
                    if i + q < re {
                        assert(uniform(b, i, re, first));
                    } else {
                        assert(uniform(b, re, e, first));
                    }
                }
            }
            assert(b.subrange(i, e) + b.subrange(e, b.len() as int) =~= b.subrange(i, b.len() as int));
        }
    }
}

/// What the `addressed-hex` writer emits for a non-empty block, each line followed by a
/// newline, reads back as the block.
pub proof fn lemma_hex_roundtrip(b: Seq<u8>)
    requires
        0 < b.len() <= usize::MAX,
    ensures
        parse_hex_spec(vstd::utf8::encode_utf8(hex_text(hex_lines(b, 0))), b.len()) == Ok::<Seq<u8>, HexFault>(b),
{
    let t = hex_text(hex_lines(b, 0));
    lemma_text_lines(b, 0);
    vstd::utf8::is_ascii_chars_encode_utf8(t);
    assert(vstd::utf8::encode_utf8(t) =~= ascii(t));
    lemma_parsed_order(b, 0);
    lemma_sorted_stays(parsed_lines(b, 0));
    lemma_cover(b, Seq::empty(), 0);
    assert(Seq::<HexLine>::empty() + parsed_lines(b, 0) =~= parsed_lines(b, 0));
    assert(b.subrange(0, b.len() as int) =~= b);
}

/// A newline added after the text changes none of its lines.
proof fn lemma_lines_newline(x: Seq<u8>, start: int, i: int)
    requires
        0 <= start <= i <= x.len(),
    ensures
        hex_lines_from(x.push(0x0Au8), start, i) == hex_lines_from(x, start, i),
    decreases x.len() - i,
{
    let y = x.push(0x0Au8);
    if i < x.len() {
        assert(y[i] == x[i]);
        if x[i] == 0x0A {
            assert(y.subrange(start, i) =~= x.subrange(start, i));
            lemma_lines_newline(x, i + 1, i + 1);
        } else {
            lemma_lines_newline(x, start, i + 1);
        }
    } else {
        assert(y.subrange(start, i) =~= x.subrange(start, x.len() as int));
        assert(y.subrange(i + 1, y.len() as int) =~= Seq::<u8>::empty());
        assert(trim_line(Seq::<u8>::empty()) =~= Seq::<u8>::empty());
        assert(hex_lines_from(y, i + 1, i + 1) == Ok::<Seq<HexLine>, HexFault>(Seq::empty()));
        match one_line(x.subrange(start, x.len() as int)) {
            Ok(l) => {
                assert(l + Seq::<HexLine>::empty() =~= l);
            },
            Err(f) => {},
        }
    }
}

/// The written text followed by one more newline reads back as the bytes too.
pub proof fn lemma_hex_roundtrip_newline(b: Seq<u8>)
    requires
        0 < b.len() <= usize::MAX,
    ensures
        parse_hex_spec(vstd::utf8::encode_utf8(hex_text(hex_lines(b, 0)) + seq!['\n']), b.len()) == Ok::<
            Seq<u8>,
            HexFault,
        >(b),
{
    let t = hex_text(hex_lines(b, 0));
    lemma_hex_roundtrip(b);
    lemma_text_lines(b, 0);
    let u = t + seq!['\n'];
    assert(vstd::utf8::is_ascii_chars(u)) by {
        assert forall|k: int| 0 <= k < u.len() implies '\0' <= #[trigger] u[k] <= '\u{7f}' by {
            if k < t.len() {
                assert(u[k] == t[k]);
            }
        }
    }
    vstd::utf8::is_ascii_chars_encode_utf8(t);
    vstd::utf8::is_ascii_chars_encode_utf8(u);
    lemma_ascii_add(t, seq!['\n']);
    assert(ascii(seq!['\n']) =~= seq![0x0Au8]);
    assert(ascii(u) =~= ascii(t).push(0x0Au8));
    assert(vstd::utf8::encode_utf8(t) =~= ascii(t));
    assert(vstd::utf8::encode_utf8(u) =~= ascii(u));
    lemma_lines_newline(ascii(t), 0, 0);
    assert(hex_lines_from(ascii(u), 0, 0) == hex_lines_from(ascii(t), 0, 0));
}

/// A line the writer emits: not empty, starting with `$`, of line characters only, and
/// not ending with a space.
pub open spec fn written_line(h: Seq<char>) -> bool {
    h.len() > 0 && h[0] == '$' && line_chars(h) && h.last() != ' '
}

/// Every line the writer emits for `b` from `i` on is a [`written_line`].
pub proof fn lemma_written_lines(b: Seq<u8>, i: int)
    requires
        0 <= i <= b.len(),
        b.len() <= usize::MAX,
    ensures
        forall|k: int| 0 <= k < hex_lines(b, i).len() ==> written_line(#[trigger] hex_lines(b, i)[k]),
    decreases b.len() - i,
{
    if i < b.len() {
        lemma_first_line(b, i);
        let re = row_end(b.len() as int, i);
        let first = b[i];
        lemma_run_end(b, first, re);
        let next = if !uniform(b, i, re, first) {
            re
        } else {
            run_end(b, first, re)
        };
        lemma_written_lines(b, next);
        let ls = hex_lines(b, i);
        let l = ls[0];
        if !uniform(b, i, re, first) {
            let row = b.subrange(i, re);
            if re == i + 1 {
                lemma_uniform_short(b, i, re);
            }
            lemma_padded_value(row.last() as nat, 2);
            let p = padded_hex(row.last() as nat, 2);
            assert(row_hex(row) == row_hex(row.drop_last()) + (if row.len() == 1 {
                Seq::<char>::empty()
            } else if row.len() == 9 {
                seq![' ', ' ']
            } else {
                seq![' ']
            }) + p);
            assert(l == addr_prefix(i) + row_hex(row));
            assert(l.last() == p.last());
            assert(l[0] == '$');
        } else {
            let l2 = addr_prefix(i) + padded_hex(first as nat, 2) + seq!['.', '.', '.'];
            assert(l == l2);
            assert(l.last() == '.');
            assert(l[0] == '$');
        }
        assert forall|k: int| 0 <= k < ls.len() implies written_line(#[trigger] ls[k]) by {
            if k > 0 {
                assert(ls[k] == ls.drop_first()[k - 1]);
            }
        }
    }
}

} // verus!
