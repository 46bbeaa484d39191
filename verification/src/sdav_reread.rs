//! The SDAV text of a numeric array: a `DIM (<n>)` line, then `n + 1` number lines.

use vstd::prelude::*;

use crate::bcd::{is_ws, trim_end_ws, trim_start_ws, trim_ws};
use crate::floppy_image::reread::{joined, lemma_joined_concat, lemma_lines_joined, single_lines};
use crate::textbuf::{decimal, digit_char};
use crate::variables::{
    all_digits, digits_val, from_ascii_spec, next_filled, nums_of, numeric_array_header, parse_lines, parse_usize,
    read_elements, starts_with, to_ascii_spec, value_text, values_text, number_lines, quoted_lines, escape_spec, Parsed, ValueView,
};

verus! {

/// A number line as the text form keeps it: on one line, not blank, without white space
/// at its ends.
pub open spec fn number_field(t: Seq<char>) -> bool {
    &&& t.len() > 0
    &&& !t.contains('\n')
    &&& !is_ws(t[0])
    &&& !is_ws(t.last())
}

/// The `DIM (<n>)` line.
pub open spec fn dim_line(n: nat) -> Seq<char> {
    seq!['D', 'I', 'M', ' ', '('] + decimal(n) + seq![')']
}

/// The lines of an SDAV file holding one numeric array whose dimension line says `n`.
pub open spec fn one_array_lines(n: nat, ts: Seq<Seq<char>>) -> Seq<Seq<char>> {
    seq!["; sde-variables:1.0 pc1500"@, "; Count: 1"@, dim_line(n)] + ts
}

proof fn lemma_decimal_digits(n: nat)
    ensures
        all_digits(decimal(n)),
        digits_val(decimal(n)) == n,
        decimal(n).len() > 0,
    decreases n,
{
    if n >= 10 {
        lemma_decimal_digits(n / 10);
        let d = decimal(n / 10);
        let c = digit_char(n % 10);
        assert(c as u32 == 48 + n % 10);
        assert(decimal(n).drop_last() =~= d);
        assert(decimal(n).last() == c);
        assert(digits_val(decimal(n)) == digits_val(d) * 10 + (c as u32 - '0' as u32) as nat);
        assert(n == (n / 10) * 10 + n % 10);
        assert('0' as u32 == 48);
        assert forall|i: int| 0 <= i < decimal(n).len() implies '0' <= #[trigger] decimal(n)[i] <= '9' by {
            if i < d.len() {
                assert(decimal(n)[i] == d[i]);
            }
        }
    } else {
        assert(digit_char(n) as u32 == 48 + n);
        assert(decimal(n).drop_last() =~= Seq::<char>::empty());
        assert(decimal(n).last() == digit_char(n));
        assert(digits_val(Seq::<char>::empty()) == 0);
        assert('0' as u32 == 48);
        assert(digits_val(decimal(n)) == digits_val(Seq::<char>::empty()) * 10 + (digit_char(n) as u32 - '0' as u32) as nat);
    }
}

proof fn lemma_parse_decimal(n: nat)
    requires
        n <= usize::MAX,
    ensures
        parse_usize(trim_ws(decimal(n))) == Some(n),
        !decimal(n).contains('\n'),
        !decimal(n).contains(')'),
{
    lemma_decimal_digits(n);
    let d = decimal(n);
    assert('0' <= d[0] <= '9');
    assert('0' <= d[d.len() - 1] <= '9');
    assert(trim_start_ws(d) == d);
    assert(trim_end_ws(d) == d);
    if d.contains('\n') || d.contains(')') {
        let k = choose|k: int| 0 <= k < d.len() && (d[k] == '\n' || d[k] == ')');
        assert('0' <= d[k] <= '9');
    }
}

/// Writing one numeric array: after the header and the count, a `DIM (<len - 1>)` line
/// and then one line per element.
pub proof fn lemma_write_numeric_array(ts: Seq<Seq<char>>)
    requires
        ts.len() > 0,
    ensures
        to_ascii_spec(None, seq![ValueView::NumArr(ts)]) == joined(
            one_array_lines((ts.len() - 1) as nat, ts),
        ),
{
    reveal_strlit("; sde-variables:1.0 pc1500\n");
    reveal_strlit("; sde-variables:1.0 pc1500");
    reveal_strlit("; Count: ");
    reveal_strlit("; Count: 1");
    reveal_strlit("DIM (");
    reveal_strlit(")\n");
    let vs = seq![ValueView::NumArr(ts)];
    assert(vs.drop_last() =~= Seq::<ValueView>::empty());
    assert(values_text(vs.drop_last()) == Seq::<char>::empty());
    assert(values_text(vs) =~= value_text(ValueView::NumArr(ts)));
    assert(decimal(1) == seq!['1']);
    lemma_number_lines(ts);
    let three = seq!["; sde-variables:1.0 pc1500"@, "; Count: 1"@, dim_line((ts.len() - 1) as nat)];
    lemma_joined_concat(three, ts);
    reveal_with_fuel(joined, 4);
    assert(to_ascii_spec(None, vs) =~= joined(one_array_lines((ts.len() - 1) as nat, ts)));
}

/// The `DIM $(<n>)*<w>` line.
pub open spec fn string_dim_line(n: nat, w: nat) -> Seq<char> {
    seq!['D', 'I', 'M', ' ', '$', '('] + decimal(n) + seq![')', '*'] + decimal(w)
}

/// A string element's line: its escaped bytes between double quotes.
pub open spec fn quoted_text(e: Seq<u8>) -> Seq<char> {
    seq!['"'] + escape_spec(e) + seq!['"']
}

proof fn lemma_quoted_lines(es: Seq<Seq<u8>>)
    ensures
        quoted_lines(es) == joined(es.map_values(|e: Seq<u8>| quoted_text(e))),
    decreases es.len(),
{
    if es.len() > 0 {
        let pre = es.drop_last();
        lemma_quoted_lines(pre);
        let f = |e: Seq<u8>| quoted_text(e);
        crate::floppy_image::reread::lemma_joined_push(pre.map_values(f), quoted_text(es.last()));
        assert(pre.map_values(f).push(quoted_text(es.last())) =~= es.map_values(f));
        assert(quoted_text(es.last()) + seq!['\n'] =~= crate::variables::quoted_line(es.last()));
    } else {
        assert(es.map_values(|e: Seq<u8>| quoted_text(e)) =~= Seq::<Seq<char>>::empty());
    }
}

/// Writing one string array: after the header and the count, a `DIM $(<len - 1>)*<w>`
/// line and then one quoted line per element.
pub proof fn lemma_write_string_array(w: nat, es: Seq<Seq<u8>>)
    requires
        es.len() > 0,
    ensures
        to_ascii_spec(None, seq![ValueView::StrArr(w, es)]) == joined(
            seq!["; sde-variables:1.0 pc1500"@, "; Count: 1"@, string_dim_line((es.len() - 1) as nat, w)]
                + es.map_values(|e: Seq<u8>| quoted_text(e)),
        ),
{
    reveal_strlit("; sde-variables:1.0 pc1500\n");
    reveal_strlit("; sde-variables:1.0 pc1500");
    reveal_strlit("; Count: ");
    reveal_strlit("; Count: 1");
    reveal_strlit("DIM $(");
    reveal_strlit(")*");
    let vs = seq![ValueView::StrArr(w, es)];
    assert(vs.drop_last() =~= Seq::<ValueView>::empty());
    assert(values_text(vs.drop_last()) == Seq::<char>::empty());
    assert(values_text(vs) =~= value_text(ValueView::StrArr(w, es)));
    assert(decimal(1) == seq!['1']);
    lemma_quoted_lines(es);
    let qs = es.map_values(|e: Seq<u8>| quoted_text(e));
    let three = seq!["; sde-variables:1.0 pc1500"@, "; Count: 1"@, string_dim_line((es.len() - 1) as nat, w)];
    lemma_joined_concat(three, qs);
    reveal_with_fuel(joined, 4);
    assert(to_ascii_spec(None, vs) =~= joined(three + qs));
}

proof fn lemma_number_lines(ts: Seq<Seq<char>>)
    ensures
        number_lines(ts) == joined(ts),
    decreases ts.len(),
{
    if ts.len() > 0 {
        lemma_number_lines(ts.drop_last());
        crate::floppy_image::reread::lemma_joined_push(ts.drop_last(), ts.last());
        assert(ts.drop_last().push(ts.last()) =~= ts);
    }
}

/// Reading `k` number lines from `i` on gives those numbers and stops after them.
proof fn lemma_read_numbers(ls: Seq<Seq<char>>, i: int, ts: Seq<Seq<char>>, k: nat)
    requires
        0 <= i,
        k <= ts.len(),
        i + k <= ls.len(),
        forall|j: int| 0 <= j < k ==> ls[i + j] == #[trigger] ts[j] && number_field(ts[j]),
    ensures
        read_elements(ls, i, k, false) == Some((ts.take(k as int).map_values(|t: Seq<char>| ValueView::Num(t)), i + k)),
    decreases k,
{
    if k > 0 {
        let t = ts[0];
        assert(ts[0] == t);
        assert(ls[i] == t && number_field(t));
        assert(trim_start_ws(t) == t);
        assert(trim_end_ws(t) == t);
        assert(next_filled(ls, i) == Some(i));
        let rest = ts.drop_first();
        assert forall|j: int| 0 <= j < k - 1 implies ls[i + 1 + j] == #[trigger] rest[j] && number_field(rest[j]) by {
            assert(ls[i + (j + 1)] == ts[j + 1]);
        }
        lemma_read_numbers(ls, i + 1, rest, (k - 1) as nat);
        assert(seq![ValueView::Num(t)] + rest.take(k - 1).map_values(|t: Seq<char>| ValueView::Num(t))
            =~= ts.take(k as int).map_values(|t: Seq<char>| ValueView::Num(t)));
    } else {
        assert(ts.take(0).map_values(|t: Seq<char>| ValueView::Num(t)) =~= Seq::<ValueView>::empty());
    }
}

proof fn lemma_one_array_single_lines(n: nat, ts: Seq<Seq<char>>)
    requires
        n <= usize::MAX,
        forall|j: int| 0 <= j < ts.len() ==> number_field(#[trigger] ts[j]),
    ensures
        single_lines(one_array_lines(n, ts)),
{
    reveal_strlit("; sde-variables:1.0 pc1500");
    reveal_strlit("; Count: 1");
    lemma_parse_decimal(n);
    let ls0 = one_array_lines(n, ts);
    let h0 = "; sde-variables:1.0 pc1500"@;
    let h1 = "; Count: 1"@;
    let dl = dim_line(n);
    assert forall|i: int| 0 <= i < ls0.len() implies !(#[trigger] ls0[i]).contains('\n') by {
        if i == 0 {
            if h0.contains('\n') {
                let k = choose|k: int| 0 <= k < h0.len() && h0[k] == '\n';
            }
        } else if i == 1 {
            if h1.contains('\n') {
                let k = choose|k: int| 0 <= k < h1.len() && h1[k] == '\n';
            }
        } else if i == 2 {
            if dl.contains('\n') {
                let k = choose|k: int| 0 <= k < dl.len() && dl[k] == '\n';
                if 5 <= k < 5 + decimal(n).len() {
                    assert(dl[k] == decimal(n)[k - 5]);
                    assert(decimal(n).contains('\n'));
                }
            }
        } else {
            assert(ls0[i] == ts[i - 3]);
        }
    }
}

/// The two heading lines: a comment, then the count.
proof fn lemma_read_heading(ls: Seq<Seq<char>>, st0: Parsed)
    requires
        ls.len() > 2,
        ls[0] == "; sde-variables:1.0 pc1500"@,
        ls[1] == "; Count: 1"@,
    ensures
        parse_lines(ls, 0, st0) == parse_lines(ls, 2, Parsed { count: Some(1), ..st0 }),
{
    reveal_strlit("; sde-variables:1.0 pc1500");
    reveal_strlit("; Count: 1");
    reveal_strlit("; Count:");
    reveal_strlit("; Filename:");
    let h0 = "; sde-variables:1.0 pc1500"@;
    let h1 = "; Count: 1"@;
    assert(trim_start_ws(h0) == h0 && trim_end_ws(h0) == h0);
    assert(!starts_with(h0, "; Count:"@)) by {
        assert(h0.take(8)[2] != 'C');
    }
    assert(!starts_with(h0, "; Filename:"@)) by {
        assert(h0.take(11)[2] != 'F');
    }
    assert(parse_lines(ls, 0, st0) == parse_lines(ls, 1, st0));
    assert(trim_start_ws(h1) == h1 && trim_end_ws(h1) == h1);
    assert(h1.take(8) =~= "; Count:"@);
    assert(h1.skip(8) =~= seq![' ', '1']);
    assert(trim_ws(seq![' ', '1']) =~= seq!['1']) by {
        assert(seq![' ', '1'].drop_first() =~= seq!['1']);
        assert(trim_start_ws(seq!['1']) == seq!['1']);
        assert(trim_end_ws(seq!['1']) == seq!['1']);
    }
    assert(digits_val(seq!['1']) == 1) by {
        assert(seq!['1'].drop_last() =~= Seq::<char>::empty());
        assert(digits_val(Seq::<char>::empty()) == 0);
        assert('0' as u32 == 48);
        assert('1' as u32 == 49);
    }
    assert(parse_usize(seq!['1']) == Some(1nat));
}

/// The `DIM (<n>)` line and the `n + 1` number lines after it.
proof fn lemma_read_dim(ls: Seq<Seq<char>>, i: int, n: nat, ts: Seq<Seq<char>>, st: Parsed)
    requires
        0 <= i,
        n < usize::MAX,
        ts.len() == n + 1,
        i + 1 + ts.len() <= ls.len(),
        ls[i] == dim_line(n),
        forall|j: int| 0 <= j < ts.len() ==> #[trigger] ls[i + 1 + j] == ts[j] && number_field(ts[j]),
    ensures
        parse_lines(ls, i, st) == parse_lines(
            ls,
            i + 2 + n,
            Parsed { values: st.values.push(ValueView::NumArr(ts)), ..st },
        ),
{
    reveal_strlit("; Count:");
    reveal_strlit("; Filename:");
    reveal_strlit("DIM $(");
    reveal_strlit("DIM (");
    lemma_parse_decimal(n);
    lemma_decimal_digits(n);
    let dl = dim_line(n);
    assert(dl.last() == ')');
    assert('0' <= dl[5] <= '9') by {
        assert(dl[5] == decimal(n)[0]);
    }
    assert(trim_start_ws(dl) == dl && trim_end_ws(dl) == dl);
    assert(dl.take(5) =~= "DIM ("@);
    assert(!starts_with(dl, "DIM $("@)) by {
        assert(dl.take(6)[5] != '$');
    }
    assert(!starts_with(dl, "; Count:"@)) by {
        if dl.len() >= 8 {
            assert(dl.take(8)[0] != ';');
        }
    }
    assert(!starts_with(dl, "; Filename:"@)) by {
        if dl.len() >= 11 {
            assert(dl.take(11)[0] != ';');
        }
    }
    assert(dl.skip(5).drop_last() =~= decimal(n));
    assert(numeric_array_header(dl) == Some(n));
    assert forall|j: int| 0 <= j < n + 1 implies #[trigger] ls[(i + 1) + j] == ts[j] && number_field(ts[j]) by {
        assert(ls[i + 1 + j] == ts[j]);
    }
    lemma_read_numbers(ls, i + 1, ts, (n + 1) as nat);
    let xs = ts.take((n + 1) as int).map_values(|t: Seq<char>| ValueView::Num(t));
    assert(ts.take((n + 1) as int) =~= ts);
    assert(nums_of(xs) =~= ts);
}

/// Reading an SDAV file whose one value is a `DIM (<n>)` line followed by `n + 1` number
/// lines gives one numeric array of those `n + 1` numbers.
pub proof fn lemma_read_numeric_array(n: nat, ts: Seq<Seq<char>>)
    requires
        n < usize::MAX,
        ts.len() == n + 1,
        forall|j: int| 0 <= j < ts.len() ==> number_field(#[trigger] ts[j]),
    ensures
        from_ascii_spec(joined(one_array_lines(n, ts))) == Some(
            Parsed { count: Some(1), filename: None, values: seq![ValueView::NumArr(ts)] },
        ),
{
    let ls0 = one_array_lines(n, ts);
    lemma_one_array_single_lines(n, ts);
    lemma_lines_joined(ls0);
    let ls = ls0.push(Seq::empty());
    let st0 = Parsed { count: None, filename: None, values: Seq::empty() };
    let st1 = Parsed { count: Some(1), ..st0 };
    lemma_read_heading(ls, st0);
    assert forall|j: int| 0 <= j < ts.len() implies #[trigger] ls[2 + 1 + j] == ts[j] && number_field(ts[j]) by {
        assert(ls0[3 + j] == ts[j]);
    }
    lemma_read_dim(ls, 2, n, ts, st1);
    let st2 = Parsed { values: st1.values.push(ValueView::NumArr(ts)), ..st1 };
    let e: int = 4 + n as int;
    assert(ls[e].len() == 0);
    assert(trim_start_ws(ls[e]) == ls[e]);
    assert(parse_lines(ls, e, st2) == parse_lines(ls, e + 1, st2));
    assert(parse_lines(ls, e + 1, st2) == Some(st2));
    assert(st2.values =~= seq![ValueView::NumArr(ts)]);
}

} // verus!
