//! The small YAML subset a floppy image file is written in: block mappings of
//! `key: value` lines indented by spaces, whole-line and trailing `#` comments, bare or
//! quoted scalars (no escapes) and `|` literal block scalars.

use vstd::prelude::*;

use crate::bcd::{is_whitespace, is_ws, trim_bounds, trim_end_ws, trim_ws};
use crate::detect::{lines_spec, split_lines, sub_chars};

verus! {

/// One line of the file: its indent (leading spaces), its content without indent and
/// trailing white space (`None` for a blank or whole-line comment line), and the line
/// itself without a final carriage return.
pub struct YLine {
    pub indent: nat,
    pub body: Option<Seq<char>>,
    pub raw: Seq<char>,
}

/// A node: a scalar, or a mapping as its entries in file order.
pub enum YNode {
    Scalar(Seq<char>),
    Mapping(Seq<(Seq<char>, YNode)>),
}

/// Why a file is not in the subset; line numbers count from 1.
pub enum YamlFault {
    Tab(nat),
    Indent(nat),
    NoColon(nat),
    NoSpace(nat),
    Duplicate(nat, Seq<char>),
    Quote(nat),
}

pub open spec fn strip_cr(r: Seq<char>) -> Seq<char> {
    if r.len() > 0 && r.last() == '\r' {
        r.drop_last()
    } else {
        r
    }
}

/// Number of leading spaces of `r` from `i` on.
pub open spec fn spaces_from(r: Seq<char>, i: int) -> nat
    decreases r.len() - i,
{
    if i < 0 || i >= r.len() || r[i] != ' ' {
        0
    } else {
        1 + spaces_from(r, i + 1)
    }
}

/// The line `r` (as split at `\n`) read.
pub open spec fn yline(r: Seq<char>) -> YLine {
    let raw = strip_cr(r);
    let n = spaces_from(raw, 0);
    let body = trim_end_ws(raw.skip(n as int));
    YLine {
        indent: n,
        body: if body.len() == 0 || body[0] == '#' {
            None
        } else {
            Some(body)
        },
        raw,
    }
}

/// The line `r` is indented with a tab.
pub open spec fn tab_indented(r: Seq<char>) -> bool {
    let raw = strip_cr(r);
    let n = spaces_from(raw, 0);
    n < raw.len() && raw[n as int] == '\t'
}

/// Index of the first tab-indented line from `i` on.
pub open spec fn first_tab(rs: Seq<Seq<char>>, i: int) -> Option<int>
    decreases rs.len() - i,
{
    if i < 0 || i >= rs.len() {
        None
    } else if tab_indented(rs[i]) {
        Some(i)
    } else {
        first_tab(rs, i + 1)
    }
}

/// A line that holds only white space.
pub open spec fn blank(l: YLine) -> bool {
    trim_ws(l.raw).len() == 0
}

/// Index of the first line from `i` with content indented less than `ci` (the end of a
/// mapping whose keys sit at `ci`), or the number of lines.
pub open spec fn scan_end(ls: Seq<YLine>, i: int, ci: nat) -> int
    decreases ls.len() - i,
{
    if i < 0 || i >= ls.len() {
        ls.len() as int
    } else if ls[i].body is Some && ls[i].indent < ci {
        i
    } else {
        scan_end(ls, i + 1, ci)
    }
}

/// Index of the first line from `i` with content.
pub open spec fn first_body(ls: Seq<YLine>, i: int) -> Option<int>
    decreases ls.len() - i,
{
    if i < 0 || i >= ls.len() {
        None
    } else if ls[i].body is Some {
        Some(i)
    } else {
        first_body(ls, i + 1)
    }
}

/// End of a block scalar starting at `i` under a key at `indent`: the first line that is
/// not blank and not indented deeper.
pub open spec fn block_end(ls: Seq<YLine>, i: int, indent: nat) -> int
    decreases ls.len() - i,
{
    if i < 0 || i >= ls.len() {
        ls.len() as int
    } else if !blank(ls[i]) && ls[i].indent <= indent {
        i
    } else {
        block_end(ls, i + 1, indent)
    }
}

/// Smallest indent of the non-blank lines `ls[i..e]`.
pub open spec fn block_common(ls: Seq<YLine>, i: int, e: int) -> Option<nat>
    decreases e - i,
{
    if e <= i {
        None
    } else {
        let c = block_common(ls, i, e - 1);
        if blank(ls[e - 1]) {
            c
        } else {
            match c {
                None => Some(ls[e - 1].indent),
                Some(x) => Some(if ls[e - 1].indent < x {
                    ls[e - 1].indent
                } else {
                    x
                }),
            }
        }
    }
}

/// One line of a block scalar with `common` columns removed.
pub open spec fn block_piece(l: YLine, common: nat) -> Seq<char> {
    if l.raw.len() >= common {
        trim_end_ws(l.raw.skip(common as int))
    } else {
        Seq::empty()
    }
}

/// The text of the block scalar `ls[i..e]`: each line without `common` columns and
/// trailing white space, ended by a newline.
pub open spec fn block_text(ls: Seq<YLine>, i: int, e: int, common: nat) -> Seq<char>
    decreases e - i,
{
    if e <= i {
        Seq::empty()
    } else {
        block_text(ls, i, e - 1, common) + block_piece(ls[e - 1], common) + seq!['\n']
    }
}

/// Index of the first `:` of `s`.
pub open spec fn colon_index(s: Seq<char>, i: int) -> Option<int>
    decreases s.len() - i,
{
    if i < 0 || i >= s.len() {
        None
    } else if s[i] == ':' {
        Some(i)
    } else {
        colon_index(s, i + 1)
    }
}

/// Where a ` #` comment starts in `s` (outside quotes), scanning from `i` with the open
/// quote and whether the previous character was a space.
pub open spec fn comment_at(s: Seq<char>, i: int, quote: Option<char>, prev_space: bool) -> Option<int>
    decreases s.len() - i,
{
    if i < 0 || i >= s.len() {
        None
    } else {
        let c = s[i];
        match quote {
            Some(q) => comment_at(
                s,
                i + 1,
                if c == q {
                    None
                } else {
                    quote
                },
                c == ' ',
            ),
            None => if c == '"' || c == '\'' {
                comment_at(s, i + 1, Some(c), c == ' ')
            } else if c == '#' && prev_space {
                Some(i)
            } else {
                comment_at(s, i + 1, None, c == ' ')
            },
        }
    }
}

/// `s` without a trailing comment.
pub open spec fn strip_comment(s: Seq<char>) -> Seq<char> {
    match comment_at(s, 0, None, true) {
        Some(i) => trim_end_ws(s.take(i)),
        None => s,
    }
}

/// The inside of `s` quoted with `q`, which may not hold `q` itself.
pub open spec fn quoted(s: Seq<char>, q: char) -> Option<Seq<char>> {
    let rest = s.drop_first();
    if rest.len() > 0 && rest.last() == q && !rest.drop_last().contains(q) {
        Some(rest.drop_last())
    } else {
        None
    }
}

/// A scalar value: quoted (no escapes), or bare.
pub open spec fn unquote(s: Seq<char>) -> Option<Seq<char>> {
    if s.len() > 0 && s[0] == '"' {
        quoted(s, '"')
    } else if s.len() > 0 && s[0] == '\'' {
        quoted(s, '\'')
    } else {
        Some(s)
    }
}

pub open spec fn has_key(es: Seq<(Seq<char>, YNode)>, key: Seq<char>) -> bool {
    exists|k: int| 0 <= k < es.len() && (#[trigger] es[k]).0 == key
}

pub proof fn lemma_scan_end(ls: Seq<YLine>, i: int, ci: nat)
    requires
        0 <= i <= ls.len(),
    ensures
        i <= scan_end(ls, i, ci) <= ls.len(),
    decreases ls.len() - i,
{
    if i < ls.len() {
        lemma_scan_end(ls, i + 1, ci);
    }
}

pub proof fn lemma_block_end(ls: Seq<YLine>, i: int, indent: nat)
    requires
        0 <= i <= ls.len(),
    ensures
        i <= block_end(ls, i, indent) <= ls.len(),
    decreases ls.len() - i,
{
    if i < ls.len() {
        lemma_block_end(ls, i + 1, indent);
    }
}

pub proof fn lemma_first_body(ls: Seq<YLine>, i: int)
    requires
        0 <= i,
    ensures
        first_body(ls, i) matches Some(k) ==> i <= k < ls.len() && ls[k].body is Some,
    decreases ls.len() - i,
{
    if i < ls.len() && ls[i].body is None {
        lemma_first_body(ls, i + 1);
    }
}

/// The entries of the mapping whose keys sit at `indent`, read from line `pos` on after
/// the entries `acc`: it ends at the first line with content indented less.
pub open spec fn map_from(ls: Seq<YLine>, pos: int, indent: nat, acc: Seq<(Seq<char>, YNode)>) -> Result<
    Seq<(Seq<char>, YNode)>,
    YamlFault,
>
    decreases ls.len() - pos,
{
    if pos < 0 || pos >= ls.len() {
        Ok(acc)
    } else {
        let l = ls[pos];
        let no = (pos + 1) as nat;
        match l.body {
            None => map_from(ls, pos + 1, indent, acc),
            Some(body) => if l.indent < indent {
                Ok(acc)
            } else if l.indent > indent {
                Err(YamlFault::Indent(no))
            } else {
                match colon_index(body, 0) {
                    None => Err(YamlFault::NoColon(no)),
                    Some(c) => {
                        let key = trim_ws(body.take(c));
                        let rest = body.skip(c + 1);
                        if rest.len() > 0 && rest[0] != ' ' {
                            Err(YamlFault::NoSpace(no))
                        } else if has_key(acc, key) {
                            Err(YamlFault::Duplicate(no, key))
                        } else {
                            let value = strip_comment(trim_ws(rest));
                            if value == seq!['|'] {
                                let e = block_end(ls, pos + 1, indent);
                                proof {
                                    lemma_block_end(ls, pos + 1, indent);
                                }
                                let common = match block_common(ls, pos + 1, e) {
                                    Some(c) => c,
                                    None => 0,
                                };
                                map_from(
                                    ls,
                                    e,
                                    indent,
                                    acc.push((key, YNode::Scalar(block_text(ls, pos + 1, e, common)))),
                                )
                            } else if value.len() == 0 {
                                match first_body(ls, pos + 1) {
                                    Some(k) => if ls[k].indent > indent {
                                        let ci = ls[k].indent;
                                        let e = scan_end(ls, pos + 1, ci);
                                        proof {
                                            lemma_scan_end(ls, pos + 1, ci);
                                        }
                                        match map_from(ls, pos + 1, ci, Seq::empty()) {
                                            Err(f) => Err(f),
                                            Ok(es) => map_from(ls, e, indent, acc.push((key, YNode::Mapping(es)))),
                                        }
                                    } else {
                                        map_from(ls, pos + 1, indent, acc.push((key, YNode::Scalar(Seq::empty()))))
                                    },
                                    None => map_from(
                                        ls,
                                        pos + 1,
                                        indent,
                                        acc.push((key, YNode::Scalar(Seq::empty()))),
                                    ),
                                }
                            } else {
                                match unquote(value) {
                                    None => Err(YamlFault::Quote(no)),
                                    Some(v) => map_from(ls, pos + 1, indent, acc.push((key, YNode::Scalar(v)))),
                                }
                            }
                        }
                    },
                }
            },
        }
    }
}

/// The text `t` read as a block mapping at indent 0.
pub open spec fn yaml_spec(t: Seq<char>) -> Result<YNode, YamlFault> {
    let rs = lines_spec(t);
    match first_tab(rs, 0) {
        Some(i) => Err(YamlFault::Tab((i + 1) as nat)),
        None => match map_from(Seq::new(rs.len(), |i: int| yline(rs[i])), 0, 0, Seq::empty()) {
            Err(f) => Err(f),
            Ok(es) => Ok(YNode::Mapping(es)),
        },
    }
}


/// A node as read: a scalar, or a mapping's entries in file order.
pub enum Node {
    Scalar(Vec<char>),
    Mapping(Vec<(Vec<char>, Node)>),
}

pub open spec fn node_view(n: Node) -> YNode
    decreases n,
{
    match n {
        Node::Scalar(s) => YNode::Scalar(s@),
        Node::Mapping(es) => YNode::Mapping(
            Seq::new(
                es@.len(),
                |i: int|
                    if 0 <= i < es@.len() {
                        proof {
                            assert(decreases_to!(n => es));
                            assert(decreases_to!(es => es@));
                            assert(decreases_to!(es@ => es@[i]));
                            assert(decreases_to!(es@[i] => es@[i].1));
                        }
                        (es@[i].0@, node_view(es@[i].1))
                    } else {
                        (Seq::empty(), YNode::Scalar(Seq::empty()))
                    },
            ),
        ),
    }
}


/// A line as read.
pub struct Line {
    pub indent: usize,
    pub body: Option<Vec<char>>,
    pub raw: Vec<char>,
}

impl View for Line {
    type V = YLine;

    open spec fn view(&self) -> YLine {
        YLine {
            indent: self.indent as nat,
            body: match &self.body {
                Some(b) => Some(b@),
                None => None,
            },
            raw: self.raw@,
        }
    }
}

pub open spec fn line_views(ls: Seq<Line>) -> Seq<YLine> {
    Seq::new(ls.len(), |i: int| ls[i]@)
}

pub open spec fn entry_views(es: Seq<(Vec<char>, Node)>) -> Seq<(Seq<char>, YNode)> {
    Seq::new(es.len(), |i: int| (es[i].0@, node_view(es[i].1)))
}

/// Why a file is not in the subset; line numbers count from 1.
#[derive(Clone, Debug, PartialEq, Eq)]
pub enum YamlError {
    Tab(usize),
    Indent(usize),
    NoColon(usize),
    NoSpace(usize),
    Duplicate(usize, String),
    Quote(usize),
}

impl YamlError {
    /// The error as a line of text.
    pub open spec fn message_text(self) -> Seq<char> {
        let n = match self {
            YamlError::Tab(n) => n,
            YamlError::Indent(n) => n,
            YamlError::NoColon(n) => n,
            YamlError::NoSpace(n) => n,
            YamlError::Duplicate(n, _) => n,
            YamlError::Quote(n) => n,
        };
        "line "@ + crate::textbuf::decimal(n as nat) + match self {
            YamlError::Tab(_) => ": tabs are not allowed for indentation"@,
            YamlError::Indent(_) => ": unexpected indentation"@,
            YamlError::NoColon(_) => ": expected 'key: value'"@,
            YamlError::NoSpace(_) => ": expected a space after ':'"@,
            YamlError::Duplicate(_, k) => ": duplicate key '"@ + k@ + "'"@,
            YamlError::Quote(_) => ": unterminated or malformed quoted value"@,
        }
    }

    pub fn message(&self) -> (s: String)
        ensures
            s@ == self.message_text(),
    {
        let mut s = String::new();
        let n = match self {
            YamlError::Tab(n) => *n,
            YamlError::Indent(n) => *n,
            YamlError::NoColon(n) => *n,
            YamlError::NoSpace(n) => *n,
            YamlError::Duplicate(n, _) => *n,
            YamlError::Quote(n) => *n,
        };
        crate::textbuf::push_str(&mut s, "line ");
        crate::textbuf::push_decimal(&mut s, n as u64);
        match self {
            YamlError::Tab(_) => crate::textbuf::push_str(&mut s, ": tabs are not allowed for indentation"),
            YamlError::Indent(_) => crate::textbuf::push_str(&mut s, ": unexpected indentation"),
            YamlError::NoColon(_) => crate::textbuf::push_str(&mut s, ": expected 'key: value'"),
            YamlError::NoSpace(_) => crate::textbuf::push_str(&mut s, ": expected a space after ':'"),
            YamlError::Duplicate(_, k) => {
                crate::textbuf::push_str(&mut s, ": duplicate key '");
                crate::textbuf::push_str(&mut s, k.as_str());
                crate::textbuf::push_str(&mut s, "'");
            },
            YamlError::Quote(_) => crate::textbuf::push_str(&mut s, ": unterminated or malformed quoted value"),
        }
        s
    }
}

pub open spec fn yaml_reports(e: YamlError, f: YamlFault) -> bool {
    match (e, f) {
        (YamlError::Tab(a), YamlFault::Tab(b)) => a == b,
        (YamlError::Indent(a), YamlFault::Indent(b)) => a == b,
        (YamlError::NoColon(a), YamlFault::NoColon(b)) => a == b,
        (YamlError::NoSpace(a), YamlFault::NoSpace(b)) => a == b,
        (YamlError::Duplicate(a, k), YamlFault::Duplicate(b, kk)) => a == b && k@ == kk,
        (YamlError::Quote(a), YamlFault::Quote(b)) => a == b,
        _ => false,
    }
}

pub open spec fn all_ws(s: Seq<char>) -> bool {
    forall|k: int| 0 <= k < s.len() ==> is_ws(#[trigger] s[k])
}

proof fn lemma_trim_start_shape(s: Seq<char>)
    ensures
        exists|k: int|
            0 <= k <= s.len() && crate::bcd::trim_start_ws(s) == s.skip(k) && all_ws(#[trigger] s.take(k)),
    decreases s.len(),
{
    if s.len() > 0 && is_ws(s[0]) {
        lemma_trim_start_shape(s.drop_first());
        let k = choose|k: int|
            0 <= k <= s.drop_first().len() && crate::bcd::trim_start_ws(s.drop_first()) == s.drop_first().skip(k)
                && all_ws(#[trigger] s.drop_first().take(k));
        assert(s.drop_first().skip(k) =~= s.skip(k + 1));
        assert forall|q: int| 0 <= q < k + 1 implies is_ws(#[trigger] s.take(k + 1)[q]) by {
            if q > 0 {
                assert(s.take(k + 1)[q] == s.drop_first().take(k)[q - 1]);
            }
        }
        assert(all_ws(s.take(k + 1)));
        assert(crate::bcd::trim_start_ws(s) == s.skip(k + 1));
    } else {
        assert(s.skip(0) =~= s);
        assert(all_ws(s.take(0)));
    }
}

proof fn lemma_trim_end_shape(t: Seq<char>)
    ensures
        trim_end_ws(t).len() <= t.len(),
        trim_end_ws(t) == t.take(trim_end_ws(t).len() as int),
        all_ws(t.skip(trim_end_ws(t).len() as int)),
        trim_end_ws(t).len() > 0 ==> !is_ws(t[trim_end_ws(t).len() - 1]),
    decreases t.len(),
{
    if t.len() > 0 && is_ws(t.last()) {
        lemma_trim_end_shape(t.drop_last());
        let m = trim_end_ws(t).len() as int;
        assert(t.drop_last().take(m) =~= t.take(m));
        assert forall|q: int| 0 <= q < t.len() - m implies is_ws(#[trigger] t.skip(m)[q]) by {
            if q < t.len() - m - 1 {
                assert(t.skip(m)[q] == t.drop_last().skip(m)[q]);
            }
        }
    } else {
        assert(t.take(t.len() as int) =~= t);
    }
}

/// A line with content is not blank.
pub proof fn lemma_body_not_blank(r: Seq<char>)
    ensures
        yline(r).body is Some ==> !blank(yline(r)),
{
    let raw = strip_cr(r);
    let n = spaces_from(raw, 0);
    lemma_spaces_from(raw, 0);
    let t = raw.skip(n as int);
    lemma_trim_end_shape(t);
    if trim_end_ws(t).len() > 0 && trim_ws(raw).len() == 0 {
        lemma_trim_start_shape(raw);
        let k = choose|k: int|
            0 <= k <= raw.len() && crate::bcd::trim_start_ws(raw) == raw.skip(k) && all_ws(#[trigger] raw.take(k));
        let u = raw.skip(k);
        lemma_trim_end_shape(u);
        assert(trim_end_ws(u).len() == 0);
        assert(u.skip(0) =~= u);
        let j = n + trim_end_ws(t).len() - 1;
        assert(raw[j] == t[trim_end_ws(t).len() - 1]);
        if j < k {
            assert(raw.take(k)[j] == raw[j]);
        } else {
            assert(u[j - k] == raw[j]);
        }
    }
}

proof fn lemma_spaces_from(r: Seq<char>, i: int)
    requires
        0 <= i <= r.len(),
    ensures
        i + spaces_from(r, i) <= r.len(),
        forall|k: int| i <= k < i + spaces_from(r, i) ==> r[k] == ' ',
        i + spaces_from(r, i) < r.len() ==> r[i + spaces_from(r, i)] != ' ',
    decreases r.len() - i,
{
    if i < r.len() && r[i] == ' ' {
        lemma_spaces_from(r, i + 1);
    }
}


/// The raw line `r` read, and whether it is indented with a tab.
fn make_line(r: &Vec<char>) -> (out: (Line, bool))
    ensures
        out.0@ == yline(r@),
        out.1 == tab_indented(r@),
{
    let raw = if r.len() > 0 && r[r.len() - 1] == '\r' {
        sub_chars(r, 0, r.len() - 1)
    } else {
        sub_chars(r, 0, r.len())
    };
    assert(r@.subrange(0, r@.len() as int) =~= r@);
    assert(raw@ == strip_cr(r@));
    let mut n: usize = 0;
    while n < raw.len() && raw[n] == ' '
        invariant
            n <= raw@.len(),
            spaces_from(raw@, 0) == n + spaces_from(raw@, n as int),
        decreases raw@.len() - n,
    {
        n = n + 1;
    }
    let tab = n < raw.len() && raw[n] == '\t';
    let rest = sub_chars(&raw, n, raw.len());
    assert(rest@ =~= raw@.skip(n as int));
    let e = crate::detect::trim_end_bound(&rest);
    let body = sub_chars(&rest, 0, e);
    let content = if body.len() == 0 || body[0] == '#' {
        None
    } else {
        Some(body)
    };
    (Line { indent: n, body: content, raw }, tab)
}

/// The lines of `text`, or the first tab-indented one.
fn read_lines(text: &Vec<char>) -> (r: Result<Vec<Line>, YamlError>)
    ensures
        match r {
            Ok(v) => first_tab(lines_spec(text@), 0) is None && line_views(v@) == Seq::new(
                lines_spec(text@).len(),
                |i: int| yline(lines_spec(text@)[i]),
            ),
            Err(e) => first_tab(lines_spec(text@), 0) matches Some(i) && yaml_reports(
                e,
                YamlFault::Tab((i + 1) as nat),
            ),
        },
{
    let raws = split_lines(text);
    let ghost rs = lines_spec(text@);
    let mut out: Vec<Line> = Vec::new();
    let mut i: usize = 0;
    while i < raws.len()
        invariant
            i <= raws@.len() == rs.len(),
            rs == lines_spec(text@),
            forall|k: int| 0 <= k < raws@.len() ==> (#[trigger] raws@[k])@ == rs[k],
            first_tab(rs, 0) == first_tab(rs, i as int),
            out@.len() == i,
            line_views(out@) == Seq::new(i as nat, |k: int| yline(rs[k])),
        decreases raws@.len() - i,
    {
        let (line, tab) = make_line(&raws[i]);
        if tab {
            return Err(YamlError::Tab(i + 1));
        }
        let ghost before = out@;
        assert(raws@[i as int]@ == rs[i as int]);
        out.push(line);
        assert forall|k: int| 0 <= k <= i implies line_views(out@)[k] == yline(rs[k]) by {
            if k < i {
                assert(out@[k] == before[k]);
                assert(line_views(before)[k] == before[k]@);
            }
        }
        assert(line_views(out@) =~= Seq::new((i + 1) as nat, |k: int| yline(rs[k])));
        i = i + 1;
    }
    Ok(out)
}


/// `a` and `b` hold the same characters.
pub fn chars_eq(a: &Vec<char>, b: &Vec<char>) -> (r: bool)
    ensures
        r == (a@ == b@),
{
    if a.len() != b.len() {
        return false;
    }
    let mut i: usize = 0;
    while i < a.len()
        invariant
            i <= a@.len() == b@.len(),
            forall|k: int| 0 <= k < i ==> a@[k] == b@[k],
        decreases a@.len() - i,
    {
        if a[i] != b[i] {
            return false;
        }
        i = i + 1;
    }
    assert(a@ =~= b@);
    true
}

/// `es` already holds `key`.
fn holds_key(es: &Vec<(Vec<char>, Node)>, key: &Vec<char>) -> (r: bool)
    ensures
        r == has_key(entry_views(es@), key@),
{
    let ghost vs = entry_views(es@);
    let mut i: usize = 0;
    while i < es.len()
        invariant
            i <= es@.len() == vs.len(),
            vs == entry_views(es@),
            forall|k: int| 0 <= k < i ==> (#[trigger] vs[k]).0 != key@,
        decreases es@.len() - i,
    {
        assert(vs[i as int].0 == es@[i as int].0@);
        if chars_eq(&es[i].0, key) {
            return true;
        }
        i = i + 1;
    }
    false
}

/// Index of the first `:` of `s`.
fn colon_of(s: &Vec<char>) -> (r: Option<usize>)
    ensures
        match r {
            Some(c) => colon_index(s@, 0) == Some(c as int) && c < s@.len(),
            None => colon_index(s@, 0) is None,
        },
{
    let mut i: usize = 0;
    while i < s.len()
        invariant
            i <= s@.len(),
            colon_index(s@, 0) == colon_index(s@, i as int),
        decreases s@.len() - i,
    {
        if s[i] == ':' {
            return Some(i);
        }
        i = i + 1;
    }
    None
}

/// `s` without a trailing ` #` comment.
fn strip_comment_of(s: &Vec<char>) -> (r: Vec<char>)
    ensures
        r@ == strip_comment(s@),
{
    let mut quote: Option<char> = None;
    let mut prev_space = true;
    let mut i: usize = 0;
    while i < s.len()
        invariant
            i <= s@.len(),
            comment_at(s@, 0, None, true) == comment_at(s@, i as int, quote, prev_space),
        decreases s@.len() - i,
    {
        let c = s[i];
        match quote {
            Some(q) => {
                if c == q {
                    quote = None;
                }
            },
            None => {
                if c == '"' || c == '\'' {
                    quote = Some(c);
                } else if c == '#' && prev_space {
                    let head = sub_chars(s, 0, i);
                    assert(head@ =~= s@.take(i as int));
                    let e = crate::detect::trim_end_bound(&head);
                    return sub_chars(&head, 0, e);
                }
            },
        }
        prev_space = c == ' ';
        i = i + 1;
    }
    let r = sub_chars(s, 0, s.len());
    assert(r@ =~= s@);
    r
}

/// A scalar value: the inside of a quoted one, or a bare one.
fn unquote_of(s: &Vec<char>) -> (r: Option<Vec<char>>)
    ensures
        match r {
            Some(v) => unquote(s@) == Some(v@),
            None => unquote(s@) is None,
        },
{
    if s.len() > 0 && (s[0] == '"' || s[0] == '\'') {
        let q = s[0];
        let n = s.len();
        if n < 2 || s[n - 1] != q {
            assert(n >= 2 ==> s@.drop_first().last() == s@[n - 1]);
            return None;
        }
        let mut k: usize = 1;
        while k < n - 1
            invariant
                1 <= k <= n - 1,
                n == s@.len(),
                n >= 2,
                s@[0] == q,
                q == '"' || q == '\'',
                s@[n - 1] == q,
                forall|j: int| 1 <= j < k ==> s@[j] != q,
            decreases n - 1 - k,
        {
            if s[k] == q {
                assert(s@.drop_first().drop_last()[k - 1] == q);
                assert(s@.drop_first().drop_last().contains(q));
                return None;
            }
            k = k + 1;
        }
        let inner = sub_chars(s, 1, n - 1);
        assert(inner@ =~= s@.drop_first().drop_last());
        assert(!inner@.contains(q)) by {
            if inner@.contains(q) {
                let j = choose|j: int| 0 <= j < inner@.len() && inner@[j] == q;
                assert(s@[j + 1] == q);
            }
        }
        Some(inner)
    } else {
        Some(sub_chars(s, 0, s.len()))
    }
}


/// The line `l` holds only white space.
fn is_blank(l: &Line) -> (r: bool)
    ensures
        r == blank(l@),
{
    let (a, b) = trim_bounds(&l.raw);
    a == b
}

/// End of the block scalar starting at line `from` under a key at `indent`, and the
/// smallest indent of its non-blank lines.
fn block_scan(lines: &Vec<Line>, from: usize, indent: usize) -> (r: (usize, Option<usize>))
    requires
        from <= lines@.len(),
    ensures
        r.0 as int == block_end(line_views(lines@), from as int, indent as nat),
        from <= r.0 <= lines@.len(),
        match r.1 {
            Some(c) => block_common(line_views(lines@), from as int, r.0 as int) == Some(c as nat),
            None => block_common(line_views(lines@), from as int, r.0 as int) is None,
        },
{
    let ghost ls = line_views(lines@);
    let mut j = from;
    let mut common: Option<usize> = None;
    loop
        invariant
            from <= j <= lines@.len() == ls.len(),
            ls == line_views(lines@),
            block_end(ls, from as int, indent as nat) == block_end(ls, j as int, indent as nat),
            match common {
                Some(c) => block_common(ls, from as int, j as int) == Some(c as nat),
                None => block_common(ls, from as int, j as int) is None,
            },
        decreases lines@.len() - j,
    {
        if j == lines.len() {
            return (j, common);
        }
        assert(ls[j as int] == lines@[j as int]@);
        let b = is_blank(&lines[j]);
        if !b && lines[j].indent <= indent {
            return (j, common);
        }
        if !b {
            let ind = lines[j].indent;
            common = match common {
                None => Some(ind),
                Some(c) => Some(if ind < c {
                    ind
                } else {
                    c
                }),
            };
        }
        j = j + 1;
    }
}

/// The text of the block scalar `lines[from..e]` with `common` columns removed.
fn block_text_of(lines: &Vec<Line>, from: usize, e: usize, common: usize) -> (r: Vec<char>)
    requires
        from <= e <= lines@.len(),
    ensures
        r@ == block_text(line_views(lines@), from as int, e as int, common as nat),
{
    let ghost ls = line_views(lines@);
    let mut out: Vec<char> = Vec::new();
    let mut k = from;
    while k < e
        invariant
            from <= k <= e <= lines@.len() == ls.len(),
            ls == line_views(lines@),
            out@ == block_text(ls, from as int, k as int, common as nat),
        decreases e - k,
    {
        assert(ls[k as int] == lines@[k as int]@);
        let raw = &lines[k].raw;
        let ghost before = out@;
        if raw.len() >= common {
            let tail = sub_chars(raw, common, raw.len());
            assert(tail@ =~= raw@.skip(common as int));
            let t = crate::detect::trim_end_bound(&tail);
            let mut m: usize = 0;
            while m < t
                invariant
                    m <= t <= tail@.len(),
                    out@ == before + tail@.subrange(0, m as int),
                decreases t - m,
            {
                out.push(tail[m]);
                m = m + 1;
                assert(out@ =~= before + tail@.subrange(0, m as int));
            }
        }
        out.push('\n');
        k = k + 1;
        assert(out@ =~= block_text(ls, from as int, k as int, common as nat));
    }
    out
}

/// Index of the first line from `from` with content.
fn first_body_of(lines: &Vec<Line>, from: usize) -> (r: Option<usize>)
    requires
        from <= lines@.len(),
    ensures
        match r {
            Some(k) => first_body(line_views(lines@), from as int) == Some(k as int),
            None => first_body(line_views(lines@), from as int) is None,
        },
{
    let ghost ls = line_views(lines@);
    let mut k = from;
    while k < lines.len()
        invariant
            from <= k <= lines@.len() == ls.len(),
            ls == line_views(lines@),
            first_body(ls, from as int) == first_body(ls, k as int),
        decreases lines@.len() - k,
    {
        assert(ls[k as int] == lines@[k as int]@);
        if lines[k].body.is_some() {
            return Some(k);
        }
        k = k + 1;
    }
    None
}

/// Lines `ls[a..b]` do not end a mapping whose keys sit at `ci`.
pub open spec fn no_stop(ls: Seq<YLine>, a: int, b: int, ci: nat) -> bool {
    forall|j: int| a <= j < b ==> !((#[trigger] ls[j]).body is Some && ls[j].indent < ci)
}

proof fn lemma_scan_skip(ls: Seq<YLine>, a: int, b: int, ci: nat)
    requires
        0 <= a <= b <= ls.len(),
        no_stop(ls, a, b, ci),
    ensures
        scan_end(ls, a, ci) == scan_end(ls, b, ci),
    decreases b - a,
{
    if a < b {
        lemma_scan_skip(ls, a + 1, b, ci);
    }
}

proof fn lemma_scan_prefix(ls: Seq<YLine>, i: int, ci: nat)
    requires
        0 <= i <= ls.len(),
    ensures
        no_stop(ls, i, scan_end(ls, i, ci), ci),
    decreases ls.len() - i,
{
    lemma_scan_end(ls, i, ci);
    if i < ls.len() && !(ls[i].body is Some && ls[i].indent < ci) {
        lemma_scan_prefix(ls, i + 1, ci);
    }
}

proof fn lemma_block_prefix(ls: Seq<YLine>, i: int, indent: nat)
    requires
        0 <= i <= ls.len(),
        bodies_not_blank(ls),
    ensures
        no_stop(ls, i, block_end(ls, i, indent), indent + 1),
    decreases ls.len() - i,
{
    lemma_block_end(ls, i, indent);
    if i < ls.len() && !(!blank(ls[i]) && ls[i].indent <= indent) {
        lemma_block_prefix(ls, i + 1, indent);
    }
}


/// Every line with content holds more than white space.
pub open spec fn bodies_not_blank(ls: Seq<YLine>) -> bool {
    forall|j: int| 0 <= j < ls.len() ==> (#[trigger] ls[j]).body is Some ==> !blank(ls[j])
}

/// Read the mapping whose keys sit at `indent`, from line `*pos` on; `*pos` ends at the
/// first line with content indented less (or the end).
fn parse_map(lines: &Vec<Line>, pos: &mut usize, indent: usize) -> (r: Result<Vec<(Vec<char>, Node)>, YamlError>)
    requires
        *old(pos) <= lines@.len(),
        bodies_not_blank(line_views(lines@)),
    ensures
        match r {
            Ok(es) => map_from(line_views(lines@), *old(pos) as int, indent as nat, Seq::empty()) == Ok::<
                Seq<(Seq<char>, YNode)>,
                YamlFault,
            >(entry_views(es@)) && *final(pos) as int == scan_end(
                line_views(lines@),
                *old(pos) as int,
                indent as nat,
            ),
            Err(e) => map_from(line_views(lines@), *old(pos) as int, indent as nat, Seq::empty()) matches Err(f)
                && yaml_reports(e, f),
        },
    decreases lines@.len() - *old(pos),
{
    let ghost ls = line_views(lines@);
    let ghost p0 = *pos as int;
    let mut p = *pos;
    let mut entries: Vec<(Vec<char>, Node)> = Vec::new();
    assert(entry_views(entries@) =~= Seq::<(Seq<char>, YNode)>::empty());
    loop
        invariant
            p0 == *old(pos) as int,
            p0 <= p <= lines@.len() == ls.len(),
            ls == line_views(lines@),
            bodies_not_blank(ls),
            map_from(ls, p as int, indent as nat, entry_views(entries@)) == map_from(
                ls,
                p0,
                indent as nat,
                Seq::empty(),
            ),
            scan_end(ls, p as int, indent as nat) == scan_end(ls, p0, indent as nat),
        decreases lines@.len() - p,
    {
        if p == lines.len() {
            *pos = p;
            return Ok(entries);
        }
        let line = &lines[p];
        assert(ls[p as int] == line@);
        let body = match &line.body {
            None => {
                p = p + 1;
                continue ;
            },
            Some(b) => b,
        };
        if line.indent < indent {
            *pos = p;
            return Ok(entries);
        }
        if line.indent > indent {
            return Err(YamlError::Indent(p + 1));
        }
        let c = match colon_of(body) {
            None => {
                return Err(YamlError::NoColon(p + 1));
            },
            Some(c) => c,
        };
        let head = sub_chars(body, 0, c);
        assert(head@ =~= body@.take(c as int));
        let (ka, kb) = trim_bounds(&head);
        let key = sub_chars(&head, ka, kb);
        let blen = body.len();
        let rest = sub_chars(body, c + 1, blen);
        assert(rest@ =~= body@.skip(c + 1));
        if rest.len() > 0 && rest[0] != ' ' {
            return Err(YamlError::NoSpace(p + 1));
        }
        if holds_key(&entries, &key) {
            return Err(YamlError::Duplicate(p + 1, crate::textbuf::string_of(key.as_slice())));
        }
        let (ra, rb) = trim_bounds(&rest);
        let trimmed = sub_chars(&rest, ra, rb);
        let value = strip_comment_of(&trimmed);
        let p1 = p + 1;
        let ghost acc = entry_views(entries@);
        let is_block = value.len() == 1 && value[0] == '|';
        assert(is_block == (value@ == seq!['|'])) by {
            if value@ == seq!['|'] {
                assert(value@[0] == '|');
            }
            if is_block {
                assert(value@ =~= seq!['|']);
            }
        }
        proof {
            assert(scan_end(ls, p as int, indent as nat) == scan_end(ls, p1 as int, indent as nat));
        }
        if is_block {
            let (e, common) = block_scan(lines, p1, indent);
            let cm = match common {
                Some(c) => c,
                None => 0,
            };
            let text = block_text_of(lines, p1, e, cm);
            let ghost item = (key@, YNode::Scalar(text@));
            entries.push((key, Node::Scalar(text)));
            proof {
                assert(entry_views(entries@) =~= acc.push(item));
                lemma_block_prefix(ls, p1 as int, indent as nat);
                assert(no_stop(ls, p1 as int, e as int, indent as nat));
                lemma_scan_skip(ls, p1 as int, e as int, indent as nat);
            }
            p = e;
        } else if value.len() == 0 {
            let fb = first_body_of(lines, p1);
            proof {
                lemma_first_body(ls, p1 as int);
            }
            let nested = match fb {
                Some(k) => lines[k].indent > indent,
                None => false,
            };
            if nested {
                let k = match fb {
                    Some(k) => k,
                    None => p1,
                };
                assert(ls[k as int] == lines@[k as int]@);
                let ci = lines[k].indent;
                let mut q = p1;
                let child = match parse_map(lines, &mut q, ci) {
                    Err(e) => {
                        return Err(e);
                    },
                    Ok(es) => es,
                };
                let ghost item = (key@, YNode::Mapping(entry_views(child@)));
                let node = Node::Mapping(child);
                assert(node_view(node) == YNode::Mapping(entry_views(child@))) by {
                    assert(entry_views(child@) =~= match node_view(node) {
                        YNode::Mapping(es) => es,
                        _ => Seq::empty(),
                    });
                }
                entries.push((key, node));
                proof {
                    assert(entry_views(entries@) =~= acc.push(item));
                    lemma_scan_end(ls, p1 as int, ci as nat);
                    lemma_scan_prefix(ls, p1 as int, ci as nat);
                    assert(no_stop(ls, p1 as int, q as int, indent as nat));
                    lemma_scan_skip(ls, p1 as int, q as int, indent as nat);
                }
                p = q;
            } else {
                let ghost item = (key@, YNode::Scalar(Seq::empty()));
                entries.push((key, Node::Scalar(Vec::new())));
                proof {
                    assert(entry_views(entries@) =~= acc.push(item));
                }
                p = p1;
            }
        } else {
            match unquote_of(&value) {
                None => {
                    return Err(YamlError::Quote(p + 1));
                },
                Some(v) => {
                    let ghost item = (key@, YNode::Scalar(v@));
                    entries.push((key, Node::Scalar(v)));
                    proof {
                        assert(entry_views(entries@) =~= acc.push(item));
                    }
                    p = p1;
                },
            }
        }
    }
}


/// Read `text` as a block mapping at indent 0: its entries in file order.
pub fn parse_yaml(text: &str) -> (r: Result<Vec<(Vec<char>, Node)>, YamlError>)
    ensures
        match r {
            Ok(es) => yaml_spec(text@) == Ok::<YNode, YamlFault>(YNode::Mapping(entry_views(es@))),
            Err(e) => yaml_spec(text@) matches Err(f) && yaml_reports(e, f),
        },
{
    let chars = crate::textbuf::chars_of(text);
    let lines = match read_lines(&chars) {
        Err(e) => {
            return Err(e);
        },
        Ok(v) => v,
    };
    let ghost rs = lines_spec(text@);
    proof {
        let ls = line_views(lines@);
        assert forall|j: int| 0 <= j < ls.len() implies (#[trigger] ls[j]).body is Some ==> !blank(ls[j]) by {
            assert(ls[j] == yline(rs[j]));
            lemma_body_not_blank(rs[j]);
        }
        assert(ls =~= Seq::new(rs.len(), |i: int| yline(rs[i])));
    }
    let mut pos: usize = 0;
    parse_map(&lines, &mut pos, 0)
}

} // verus!
