//! Reserve Area (key-assignment layers) codec: PC-1500/1500A CE-158 payload type `'A'`.
//!
//! The binary payload is a fixed 188 bytes (after the CE-158 header):
//! ```text
//!   0..26    layer 1 label (CP437, NUL-padded)
//!   26..52   layer 2 label
//!   52..78   layer 3 label
//!   78..188  key-content pool (110 bytes)
//! ```
//! The pool is a sequence of `[key code][content bytes...]` entries ended by a `00` byte.
//! Each of the three layers has six keys; key codes are not contiguous across layers:
//! ```text
//!   layer 1, keys 1-6: 01 02 03 04 05 06
//!   layer 2, keys 1-6: 11 12 13 14 15 16
//!   layer 3, keys 1-6: 09 0A 0B 0C 0D 0E
//! ```
//! A key with no content has no entry. Content bytes mix literal CP437 characters and
//! 2-byte BASIC keyword tokens.
//!
//! ASCII form ("SDAR"):
//! ```text
//! ; sde-reserve:1.0 pc1500
//! ; Filename: MYAPP
//!
//! [layer 1]
//! label: <text>
//! key 1: <text>
//! ...
//! ```

use vstd::prelude::*;

use crate::bcd::{trim_bounds, trim_ws};
use crate::cp437::{self, cp437_char, decode_seq, encode_lossy_seq};
use crate::detect::{chars_start_with, lines_spec, split_lines, starts_with_chars, sub_chars};
use crate::registry::{first_coded, is_prefix, longest_spec, token_lead, KeywordView, Registry};
use crate::textbuf;
use crate::variables::parse_usize;

verus! {

pub const LABEL_SIZE: usize = 26;
pub const NUM_LAYERS: usize = 3;
pub const NUM_KEYS: usize = 6;
pub const POOL_SIZE: usize = 110;
pub const PAYLOAD_SIZE: usize = 188;

/// The key code of key `key` (0-based) on layer `layer` (0-based).
pub open spec fn key_code(layer: int, key: int) -> u8 {
    if layer == 0 {
        (1 + key) as u8
    } else if layer == 1 {
        (0x11 + key) as u8
    } else {
        (0x09 + key) as u8
    }
}

/// Layer and key of a key code.
pub open spec fn key_index_spec(code: u8) -> Option<(int, int)> {
    if 0x01 <= code <= 0x06 {
        Some((0, code - 1))
    } else if 0x11 <= code <= 0x16 {
        Some((1, code - 0x11))
    } else if 0x09 <= code <= 0x0E {
        Some((2, code - 0x09))
    } else {
        None
    }
}

fn key_code_of(layer: usize, key: usize) -> (c: u8)
    requires
        layer < 3,
        key < 6,
    ensures
        c == key_code(layer as int, key as int),
        key_index_spec(c) == Some((layer as int, key as int)),
{
    if layer == 0 {
        (1 + key) as u8
    } else if layer == 1 {
        (0x11 + key) as u8
    } else {
        (0x09 + key) as u8
    }
}

fn key_index(code: u8) -> (r: Option<(usize, usize)>)
    ensures
        match r {
            Some((l, k)) => key_index_spec(code) == Some((l as int, k as int)) && l < 3 && k < 6,
            None => key_index_spec(code) is None,
        },
{
    if code >= 0x01 && code <= 0x06 {
        Some((0, (code - 1) as usize))
    } else if code >= 0x11 && code <= 0x16 {
        Some((1, (code - 0x11) as usize))
    } else if code >= 0x09 && code <= 0x0E {
        Some((2, (code - 0x09) as usize))
    } else {
        None
    }
}

/// A fully decoded Reserve Area layout: three layers, each with a label and six keys.
#[derive(Clone, Debug, PartialEq, Eq, Default)]
pub struct ReserveLayout {
    pub filename: Option<String>,
    pub labels: [String; 3],
    pub keys: [[String; 6]; 3],
}

/// The content of a [`ReserveLayout`].
pub struct LayoutView {
    pub filename: Option<Seq<char>>,
    pub labels: Seq<Seq<char>>,
    pub keys: Seq<Seq<Seq<char>>>,
}

pub open spec fn row_view(r: [String; 6]) -> Seq<Seq<char>> {
    r@.map_values(|s: String| s@)
}

impl View for ReserveLayout {
    type V = LayoutView;

    open spec fn view(&self) -> LayoutView {
        LayoutView {
            filename: match self.filename {
                Some(n) => Some(n@),
                None => None,
            },
            labels: self.labels@.map_values(|s: String| s@),
            keys: self.keys@.map_values(|r: [String; 6]| row_view(r)),
        }
    }
}

/// Why a Reserve Area payload or text does not convert.
#[derive(Clone, Debug, PartialEq, Eq)]
pub enum ReserveError {
    /// The payload is not 188 bytes long.
    WrongSize { len: usize },
    /// A pool entry starts with a byte that is no key code (offset in the payload).
    UnknownKeyCode { code: u8, offset: usize },
    /// The pool has no terminating `00`.
    Unterminated,
    /// The key contents need more than the 110-byte pool.
    PoolOverflow { needed: usize },
    /// The text form is malformed.
    Syntax(String),
}

impl ReserveError {
    /// The error as a line of text.
    pub open spec fn message_text(self) -> Seq<char> {
        match self {
            ReserveError::WrongSize { len } => "Reserve Area payload must be exactly 188 bytes, got "@ + crate::textbuf::decimal(len as nat),
            ReserveError::UnknownKeyCode { code, offset } => "Reserve Area pool: unrecognized key code 0x"@
                + crate::textbuf::padded_hex(code as nat, 2) + " at payload offset "@ + crate::textbuf::decimal(offset as nat),
            ReserveError::Unterminated => "Reserve Area pool: missing terminator within 110-byte pool region"@,
            ReserveError::PoolOverflow { needed } => "Reserve Area key content overflows the 110-byte pool (need "@
                + crate::textbuf::decimal(needed as nat) + ", have 110); shorten a key's content"@,
            ReserveError::Syntax(m) => "Reserve Area ASCII: "@ + m@,
        }
    }

    pub fn message(&self) -> (s: String)
        ensures
            s@ == self.message_text(),
    {
        let mut s = String::new();
        match self {
            ReserveError::WrongSize { len } => {
                textbuf::push_str(&mut s, "Reserve Area payload must be exactly 188 bytes, got ");
                textbuf::push_decimal(&mut s, *len as u64);
            },
            ReserveError::UnknownKeyCode { code, offset } => {
                textbuf::push_str(&mut s, "Reserve Area pool: unrecognized key code 0x");
                textbuf::push_padded_hex(&mut s, *code as u64, 2);
                textbuf::push_str(&mut s, " at payload offset ");
                textbuf::push_decimal(&mut s, *offset as u64);
            },
            ReserveError::Unterminated => {
                textbuf::push_str(
                    &mut s,
                    "Reserve Area pool: missing terminator within 110-byte pool region",
                );
            },
            ReserveError::PoolOverflow { needed } => {
                textbuf::push_str(&mut s, "Reserve Area key content overflows the 110-byte pool (need ");
                textbuf::push_decimal(&mut s, *needed as u64);
                textbuf::push_str(&mut s, ", have 110); shorten a key's content");
            },
            ReserveError::Syntax(m) => {
                textbuf::push_str(&mut s, "Reserve Area ASCII: ");
                textbuf::push_str(&mut s, m.as_str());
            },
        }
        s
    }
}

// ── key contents ─────────────────────────────────────────────────────────

/// Key content bytes from `i` on, as text: a token lead byte followed by a byte, when
/// the two form a known keyword's code, reads as that keyword; any other byte as its
/// CP437 character.
pub open spec fn detok_from(b: Seq<u8>, i: int, kws: Seq<KeywordView>) -> Seq<char>
    decreases b.len() - i,
{
    if i < 0 || i >= b.len() {
        Seq::empty()
    } else if token_lead(b[i]) && i + 1 < b.len() && first_coded(
        kws,
        (b[i] * 256 + b[i + 1]) as u16,
        kws.len() as int,
    ) is Some {
        decode_seq(kws[first_coded(kws, (b[i] * 256 + b[i + 1]) as u16, kws.len() as int)->0].name)
            + detok_from(b, i + 2, kws)
    } else {
        seq![cp437_char(b[i])] + detok_from(b, i + 1, kws)
    }
}

/// Key content text, CP437-encoded, from `i` on: at an upper-case letter or `$`, the
/// longest keyword there becomes its 2-byte token; every other byte stays.
pub open spec fn tok_from(b: Seq<u8>, i: int, kws: Seq<KeywordView>) -> Seq<u8>
    decreases b.len() - i,
{
    if i < 0 || i >= b.len() {
        Seq::empty()
    } else if (0x41 <= b[i] <= 0x5A || b[i] == 0x24) && longest_spec(kws, b.skip(i)) is Some {
        let k = longest_spec(kws, b.skip(i))->0;
        proof {
            crate::scanner::lemma_longest_is_prefix(kws, b.skip(i), kws.len() as int);
        }
        if kws[k].name.len() == 0 {
            seq![b[i]] + tok_from(b, i + 1, kws)
        } else {
            seq![(kws[k].code / 256) as u8, (kws[k].code % 256) as u8] + tok_from(
                b,
                i + kws[k].name.len(),
                kws,
            )
        }
    } else {
        seq![b[i]] + tok_from(b, i + 1, kws)
    }
}

/// Render key content bytes as text.
fn detokenize_content(bytes: &[u8], reg: &Registry) -> (s: String)
    ensures
        s@ == detok_from(bytes@, 0, reg.spec_keywords()),
{
    let ghost kws = reg.spec_keywords();
    let n = bytes.len();
    let mut s = String::new();
    let mut i: usize = 0;
    while i < n
        invariant
            i <= n == bytes@.len(),
            kws == reg.spec_keywords(),
            s@ + detok_from(bytes@, i as int, kws) == detok_from(bytes@, 0, kws),
        decreases n - i,
    {
        let b1 = bytes[i];
        let ghost before = s@;
        let ghost i0 = i as int;
        if reg.is_two_byte_token_high_byte(b1) && n - i > 1 {
            let code: u16 = (b1 as u16) * 256 + (bytes[i + 1] as u16);
            match reg.lookup_code(code) {
                Some(kw) => {
                    let name = &kw.name;
                    let mut k: usize = 0;
                    while k < name.len()
                        invariant
                            k <= name@.len(),
                            s@ == before + decode_seq(name@.take(k as int)),
                        decreases name.len() - k,
                    {
                        textbuf::push_char(&mut s, cp437::to_char(name[k]));
                        k = k + 1;
                        assert(decode_seq(name@.take(k as int)) =~= decode_seq(name@.take(k - 1)).push(
                            cp437_char(name@[k - 1]),
                        ));
                    }
                    assert(name@.take(name@.len() as int) =~= name@);
                    i = i + 2;
                    assert(before + detok_from(bytes@, i0, kws) =~= s@ + detok_from(bytes@, i as int, kws));
                    continue;
                },
                None => {},
            }
        }
        textbuf::push_char(&mut s, cp437::to_char(b1));
        i = i + 1;
        assert(before + detok_from(bytes@, i0, kws) =~= s@ + detok_from(bytes@, i as int, kws));
    }
    assert(s@ + detok_from(bytes@, i as int, kws) =~= s@);
    s
}

/// Tokenize key content: keywords become their tokens, everything else stays a CP437
/// byte.
pub fn tokenize_content(content: &str, reg: &Registry) -> (out: Vec<u8>)
    requires
        reg.wf(),
    ensures
        out@ == tok_from(encode_lossy_seq(content@), 0, reg.spec_keywords()),
{
    let ghost kws = reg.spec_keywords();
    let bytes = cp437::encode_lossy(content);
    let n = bytes.len();
    let mut out: Vec<u8> = Vec::new();
    let mut i: usize = 0;
    while i < n
        invariant
            reg.wf(),
            i <= n == bytes@.len(),
            kws == reg.spec_keywords(),
            out@ + tok_from(bytes@, i as int, kws) == tok_from(bytes@, 0, kws),
        decreases n - i,
    {
        let b = bytes[i];
        let ghost before = out@;
        let ghost i0 = i as int;
        if (b >= 0x41 && b <= 0x5A) || b == 0x24 {
            let tail = vstd::slice::slice_subrange(bytes.as_slice(), i, n);
            assert(tail@ =~= bytes@.skip(i as int));
            match reg.longest_keyword_prefix(tail) {
                Some(kw) => {
                    proof {
                        crate::scanner::lemma_longest_is_prefix(kws, tail@, kws.len() as int);
                    }
                    out.push((kw.code / 256) as u8);
                    out.push((kw.code % 256) as u8);
                    i = i + kw.name.len();
                    assert(before + tok_from(bytes@, i0, kws) =~= out@ + tok_from(bytes@, i as int, kws));
                    continue;
                },
                None => {},
            }
        }
        out.push(b);
        i = i + 1;
        assert(before + tok_from(bytes@, i0, kws) =~= out@ + tok_from(bytes@, i as int, kws));
    }
    assert(out@ + tok_from(bytes@, i as int, kws) =~= out@);
    out
}


// ── the binary payload ───────────────────────────────────────────────────

/// Text with trailing NUL characters removed.
pub open spec fn trim_nul(cs: Seq<char>) -> Seq<char>
    decreases cs.len(),
{
    if cs.len() > 0 && cs.last() == '\0' {
        trim_nul(cs.drop_last())
    } else {
        cs
    }
}

/// End of the key content starting at `i`: the next `00` or key code, or the pool's end.
pub open spec fn content_end(pool: Seq<u8>, i: int) -> int
    decreases pool.len() - i,
{
    if i < 0 || i >= pool.len() {
        pool.len() as int
    } else if pool[i] == 0 || key_index_spec(pool[i]) is Some {
        i
    } else {
        content_end(pool, i + 1)
    }
}

pub proof fn lemma_content_end(pool: Seq<u8>, i: int)
    requires
        0 <= i,
    ensures
        i <= content_end(pool, i) <= pool.len() || (i > pool.len() && content_end(pool, i) == pool.len()),
    decreases pool.len() - i,
{
    if i < pool.len() && !(pool[i] == 0 || key_index_spec(pool[i]) is Some) {
        lemma_content_end(pool, i + 1);
    }
}

/// Why a payload does not decode.
pub enum PoolFault {
    Unknown(u8, int),
    Unterminated,
}

/// The keys after reading pool entries from `pos` on.
pub open spec fn pool_keys(pool: Seq<u8>, pos: int, keys: Seq<Seq<Seq<char>>>, kws: Seq<KeywordView>) -> Result<
    Seq<Seq<Seq<char>>>,
    PoolFault,
>
    decreases pool.len() - pos,
{
    if pos < 0 || pos >= pool.len() {
        Err(PoolFault::Unterminated)
    } else if pool[pos] == 0 {
        Ok(keys)
    } else {
        match key_index_spec(pool[pos]) {
            None => Err(PoolFault::Unknown(pool[pos], 78 + pos)),
            Some((l, k)) => {
                let e = content_end(pool, pos + 1);
                proof {
                    lemma_content_end(pool, pos + 1);
                }
                pool_keys(
                    pool,
                    e,
                    keys.update(l, keys[l].update(k, detok_from(pool.subrange(pos + 1, e), 0, kws))),
                    kws,
                )
            },
        }
    }
}

pub open spec fn empty_keys() -> Seq<Seq<Seq<char>>> {
    Seq::new(3, |l: int| Seq::new(6, |k: int| Seq::<char>::empty()))
}

pub open spec fn label_at(p: Seq<u8>, l: int) -> Seq<char> {
    trim_nul(decode_seq(p.subrange(26 * l, 26 * l + 26)))
}

/// Decoding a 188-byte payload: labels and keys, or why not.
pub open spec fn decode_spec(p: Seq<u8>, kws: Seq<KeywordView>) -> Result<
    (Seq<Seq<char>>, Seq<Seq<Seq<char>>>),
    PoolFault,
> {
    match pool_keys(p.skip(78), 0, empty_keys(), kws) {
        Err(f) => Err(f),
        Ok(keys) => Ok((seq![label_at(p, 0), label_at(p, 1), label_at(p, 2)], keys)),
    }
}

pub open spec fn layout_keys(keys: [[String; 6]; 3]) -> Seq<Seq<Seq<char>>> {
    keys@.map_values(|r: [String; 6]| row_view(r))
}

fn empty_row() -> (r: [String; 6])
    ensures
        row_view(r) == Seq::new(6, |k: int| Seq::<char>::empty()),
{
    let r = [String::new(), String::new(), String::new(), String::new(), String::new(), String::new()];
    assert(row_view(r) =~= Seq::new(6, |k: int| Seq::<char>::empty()));
    r
}

/// Decode a 188-byte Reserve Area payload (CE-158 header already stripped).
pub fn decode_payload(payload: &[u8], reg: &Registry) -> (r: Result<ReserveLayout, ReserveError>)
    ensures
        match r {
            Ok(l) => payload@.len() == 188 && decode_spec(payload@, reg.spec_keywords()) == Ok::<
                (Seq<Seq<char>>, Seq<Seq<Seq<char>>>),
                PoolFault,
            >((l@.labels, l@.keys)) && l.filename is None,
            Err(e) => match e {
                ReserveError::WrongSize { len } => payload@.len() != 188 && len == payload@.len(),
                ReserveError::UnknownKeyCode { code, offset } => payload@.len() == 188 && decode_spec(
                    payload@,
                    reg.spec_keywords(),
                ) == Err::<(Seq<Seq<char>>, Seq<Seq<Seq<char>>>), PoolFault>(
                    PoolFault::Unknown(code, offset as int),
                ),
                ReserveError::Unterminated => payload@.len() == 188 && decode_spec(
                    payload@,
                    reg.spec_keywords(),
                ) == Err::<(Seq<Seq<char>>, Seq<Seq<Seq<char>>>), PoolFault>(PoolFault::Unterminated),
                _ => false,
            },
        },
{
    if payload.len() != PAYLOAD_SIZE {
        return Err(ReserveError::WrongSize { len: payload.len() });
    }
    let ghost kws = reg.spec_keywords();
    let l0 = label_text(payload, 0);
    let l1 = label_text(payload, 1);
    let l2 = label_text(payload, 2);
    let mut keys: [[String; 6]; 3] = [empty_row(), empty_row(), empty_row()];
    assert(layout_keys(keys) =~= empty_keys());
    let pool = vstd::slice::slice_subrange(payload, 78, 188);
    assert(pool@ =~= payload@.skip(78));
    let n = pool.len();
    let mut pos: usize = 0;
    loop
        invariant
            n == pool@.len() == 110,
            payload@.len() == 188,
            pool@ == payload@.skip(78),
            pos <= n,
            kws == reg.spec_keywords(),
            pool_keys(pool@, 0, empty_keys(), kws) == pool_keys(pool@, pos as int, layout_keys(keys), kws),
        ensures
            pool_keys(pool@, 0, empty_keys(), kws) == Ok::<Seq<Seq<Seq<char>>>, PoolFault>(layout_keys(keys)),
        decreases n - pos,
    {
        if pos >= n {
            return Err(ReserveError::Unterminated);
        }
        let code = pool[pos];
        if code == 0x00 {
            break;
        }
        let (layer, key) = match key_index(code) {
            Some(lk) => lk,
            None => {
                return Err(ReserveError::UnknownKeyCode { code, offset: 78 + pos });
            },
        };
        let start = pos + 1;
        let mut end = start;
        while end < n && pool[end] != 0x00 && key_index(pool[end]).is_none()
            invariant
                start <= end <= n == pool@.len(),
                content_end(pool@, start as int) == content_end(pool@, end as int),
            decreases n - end,
        {
            end = end + 1;
        }
        let content = vstd::slice::slice_subrange(pool, start, end);
        let text = detokenize_content(content, reg);
        let ghost old_keys = layout_keys(keys);
        keys[layer][key] = text;
        assert(layout_keys(keys) =~= old_keys.update(
            layer as int,
            old_keys[layer as int].update(key as int, text@),
        )) by {
            assert(row_view(keys@[layer as int]) =~= old_keys[layer as int].update(key as int, text@));
        }
        pos = end;
    }
    let layout = ReserveLayout { filename: None, labels: [l0, l1, l2], keys };
    assert(layout@.labels =~= seq![label_at(payload@, 0), label_at(payload@, 1), label_at(payload@, 2)]);
    Ok(layout)
}

/// Label `l` of a payload: its 26 bytes as text, trailing NULs removed.
fn label_text(payload: &[u8], l: usize) -> (s: String)
    requires
        payload@.len() == 188,
        l < 3,
    ensures
        s@ == label_at(payload@, l as int),
{
    let part = vstd::slice::slice_subrange(payload, 26 * l, 26 * l + 26);
    let text = cp437::decode(part);
    let cs = textbuf::chars_of(text.as_str());
    let mut end = cs.len();
    assert(cs@.subrange(0, end as int) =~= cs@);
    while end > 0 && cs[end - 1] == '\0'
        invariant
            end <= cs@.len(),
            trim_nul(cs@) == trim_nul(cs@.subrange(0, end as int)),
        decreases end,
    {
        assert(cs@.subrange(0, end as int).drop_last() =~= cs@.subrange(0, end - 1));
        end = end - 1;
    }
    let mut s = String::new();
    textbuf::push_chars(&mut s, cs.as_slice(), 0, end);
    s
}


/// A label's 26 bytes: CP437, cut to 26, NUL-padded.
pub open spec fn label_bytes(label: Seq<char>) -> Seq<u8> {
    let e = encode_lossy_seq(label);
    let t = if e.len() > 26 {
        e.take(26)
    } else {
        e
    };
    t + Seq::new((26 - t.len()) as nat, |i: int| 0u8)
}

/// The pool after adding the keys from position `idx` (layer-major) on to `pool`; or the
/// bytes that would be needed, when they exceed the pool.
pub open spec fn pool_from(keys: Seq<Seq<Seq<char>>>, kws: Seq<KeywordView>, idx: int, pool: Seq<u8>) -> Result<
    Seq<u8>,
    nat,
>
    decreases 18 - idx,
{
    if idx < 0 || idx >= 18 {
        Ok(pool)
    } else {
        let l = idx / 6;
        let k = idx % 6;
        let content = keys[l][k];
        if content.len() == 0 {
            pool_from(keys, kws, idx + 1, pool)
        } else {
            let t = tok_from(encode_lossy_seq(content), 0, kws);
            let needed = pool.len() + 1 + t.len() + 1;
            if needed > 110 {
                Err(needed)
            } else {
                pool_from(keys, kws, idx + 1, pool + seq![key_code(l, k)] + t)
            }
        }
    }
}

pub proof fn lemma_pool_from_len(keys: Seq<Seq<Seq<char>>>, kws: Seq<KeywordView>, idx: int, pool: Seq<u8>)
    requires
        pool.len() <= 109,
    ensures
        pool_from(keys, kws, idx, pool) matches Ok(p) ==> p.len() <= 109,
    decreases 18 - idx,
{
    if 0 <= idx < 18 {
        let l = idx / 6;
        let k = idx % 6;
        let content = keys[l][k];
        if content.len() == 0 {
            lemma_pool_from_len(keys, kws, idx + 1, pool);
        } else {
            let t = tok_from(encode_lossy_seq(content), 0, kws);
            if pool.len() + 1 + t.len() + 1 <= 110 {
                lemma_pool_from_len(keys, kws, idx + 1, pool + seq![key_code(l, k)] + t);
            }
        }
    }
}

/// The 188 bytes of a layout, or the pool size its keys would need.
pub open spec fn encode_spec(labels: Seq<Seq<char>>, keys: Seq<Seq<Seq<char>>>, kws: Seq<KeywordView>) -> Result<
    Seq<u8>,
    nat,
> {
    match pool_from(keys, kws, 0, Seq::empty()) {
        Err(n) => Err(n),
        Ok(pool) => Ok(label_bytes(labels[0]) + label_bytes(labels[1]) + label_bytes(labels[2]) + pool
            + Seq::new((110 - pool.len()) as nat, |i: int| 0u8)),
    }
}

/// Encode a layout to the fixed 188-byte payload. Fails when the key contents overflow
/// the 110-byte pool (`needed` saturates at the largest `usize`).
pub fn encode_payload(layout: &ReserveLayout, reg: &Registry) -> (r: Result<[u8; 188], ReserveError>)
    requires
        reg.wf(),
    ensures
        match r {
            Ok(b) => encode_spec(layout@.labels, layout@.keys, reg.spec_keywords()) == Ok::<Seq<u8>, nat>(b@),
            Err(e) => encode_spec(layout@.labels, layout@.keys, reg.spec_keywords()) matches Err(n) && e
                == ReserveError::PoolOverflow {
                needed: if n > usize::MAX {
                    usize::MAX
                } else {
                    n as usize
                },
            },
        },
{
    let ghost kws = reg.spec_keywords();
    let ghost keys = layout@.keys;
    let mut pool: Vec<u8> = Vec::new();
    let mut idx: usize = 0;
    while idx < 18
        invariant
            reg.wf(),
            kws == reg.spec_keywords(),
            keys == layout@.keys,
            idx <= 18,
            pool@.len() <= 109,
            pool_from(keys, kws, 0, Seq::empty()) == pool_from(keys, kws, idx as int, pool@),
        decreases 18 - idx,
    {
        let layer = idx / 6;
        let key = idx % 6;
        let content = &layout.keys[layer][key];
        assert(content@ == keys[layer as int][key as int]);
        if content.as_str().is_empty() {
            idx = idx + 1;
            continue;
        }
        let t = tokenize_content(content.as_str(), reg);
        if t.len() > 110 || pool.len() + 2 + t.len() > 110 {
            let needed = (pool.len() + 2).saturating_add(t.len());
            return Err(ReserveError::PoolOverflow { needed });
        }
        let ghost old_pool = pool@;
        pool.push(key_code_of(layer, key));
        let ghost before = pool@;
        let mut k: usize = 0;
        while k < t.len()
            invariant
                k <= t@.len(),
                pool@ == before + t@.take(k as int),
            decreases t.len() - k,
        {
            pool.push(t[k]);
            k = k + 1;
            assert(pool@ =~= before + t@.take(k as int));
        }
        assert(t@.take(t@.len() as int) =~= t@);
        assert(pool@ =~= old_pool + seq![key_code(layer as int, key as int)] + t@);
        idx = idx + 1;
    }
    let mut out = [0u8; 188];
    let ghost zero: Seq<u8> = out@;
    let mut l: usize = 0;
    while l < 3
        invariant
            l <= 3,
            out@.len() == 188,
            forall|j: int| 0 <= j < 26 * l ==> out@[j] == (label_bytes(layout@.labels[0]) + label_bytes(
                layout@.labels[1],
            ) + label_bytes(layout@.labels[2]))[j],
            forall|j: int| 26 * l <= j < 188 ==> out@[j] == 0,
        decreases 3 - l,
    {
        let bytes = cp437::encode_lossy(layout.labels[l].as_str());
        assert(layout.labels[l as int]@ == layout@.labels[l as int]);
        let n = if bytes.len() > 26 {
            26
        } else {
            bytes.len()
        };
        let mut k: usize = 0;
        while k < n
            invariant
                k <= n <= 26,
                n <= bytes@.len(),
                l < 3,
                out@.len() == 188,
                forall|j: int| 0 <= j < 26 * l ==> out@[j] == (label_bytes(layout@.labels[0])
                    + label_bytes(layout@.labels[1]) + label_bytes(layout@.labels[2]))[j],
                forall|j: int| 0 <= j < k ==> out@[26 * l + j] == bytes@[j],
                forall|j: int| 26 * l + k <= j < 188 ==> out@[j] == 0,
            decreases n - k,
        {
            out[26 * l + k] = bytes[k];
            k = k + 1;
        }
        proof {
            let all = label_bytes(layout@.labels[0]) + label_bytes(layout@.labels[1]) + label_bytes(
                layout@.labels[2],
            );
            assert forall|j: int| 26 * l <= j < 26 * l + 26 implies out@[j] == all[j] by {
                assert(all[j] == label_bytes(layout@.labels[l as int])[j - 26 * l]);
            }
        }
        l = l + 1;
    }
    let mut k: usize = 0;
    while k < pool.len()
        invariant
            k <= pool@.len() <= 109,
            out@.len() == 188,
            forall|j: int| 0 <= j < 78 ==> out@[j] == (label_bytes(layout@.labels[0]) + label_bytes(
                layout@.labels[1],
            ) + label_bytes(layout@.labels[2]))[j],
            forall|j: int| 0 <= j < k ==> out@[78 + j] == pool@[j],
            forall|j: int| 78 + k <= j < 188 ==> out@[j] == 0,
        decreases pool.len() - k,
    {
        out[78 + k] = pool[k];
        k = k + 1;
    }
    proof {
        lemma_pool_from_len(keys, kws, 0, Seq::empty());
        let expected = label_bytes(layout@.labels[0]) + label_bytes(layout@.labels[1]) + label_bytes(
            layout@.labels[2],
        ) + pool@ + Seq::new((110 - pool@.len()) as nat, |i: int| 0u8);
        assert(out@ =~= expected);
    }
    Ok(out)
}


// ── the text form ────────────────────────────────────────────────────────

pub open spec fn layer_text(labels: Seq<Seq<char>>, keys: Seq<Seq<Seq<char>>>, l: int) -> Seq<char> {
    "\n[layer "@ + textbuf::decimal((l + 1) as nat) + "]\n"@ + "label: "@ + labels[l] + seq!['\n'] + key_lines(
        keys[l],
        6,
    )
}

pub open spec fn key_lines(row: Seq<Seq<char>>, n: int) -> Seq<char>
    decreases n,
{
    if n <= 0 {
        Seq::empty()
    } else {
        key_lines(row, n - 1) + "key "@ + textbuf::decimal(n as nat) + ": "@ + row[n - 1] + seq!['\n']
    }
}

pub open spec fn layers_text(labels: Seq<Seq<char>>, keys: Seq<Seq<Seq<char>>>, n: int) -> Seq<char>
    decreases n,
{
    if n <= 0 {
        Seq::empty()
    } else {
        layers_text(labels, keys, n - 1) + layer_text(labels, keys, n - 1)
    }
}

/// The SDAR text of a layout.
pub open spec fn to_ascii_spec(v: LayoutView) -> Seq<char> {
    "; sde-reserve:1.0 pc1500\n"@ + match v.filename {
        Some(n) => if n.len() > 0 {
            "; Filename: "@ + n + seq!['\n']
        } else {
            Seq::empty()
        },
        None => Seq::empty(),
    } + layers_text(v.labels, v.keys, 3)
}

/// Render a layout as SDAR text.
pub fn to_ascii(layout: &ReserveLayout) -> (s: String)
    ensures
        s@ == to_ascii_spec(layout@),
{
    let mut s = String::new();
    textbuf::push_str(&mut s, "; sde-reserve:1.0 pc1500\n");
    match &layout.filename {
        Some(name) => {
            if !name.as_str().is_empty() {
                textbuf::push_str(&mut s, "; Filename: ");
                textbuf::push_str(&mut s, name.as_str());
                textbuf::push_char(&mut s, '\n');
            }
        },
        None => {},
    }
    let ghost head = s@;
    let mut l: usize = 0;
    while l < 3
        invariant
            l <= 3,
            s@ == head + layers_text(layout@.labels, layout@.keys, l as int),
        decreases 3 - l,
    {
        let ghost before = s@;
        textbuf::push_str(&mut s, "\n[layer ");
        textbuf::push_decimal(&mut s, (l + 1) as u64);
        textbuf::push_str(&mut s, "]\n");
        textbuf::push_str(&mut s, "label: ");
        textbuf::push_str(&mut s, layout.labels[l].as_str());
        textbuf::push_char(&mut s, '\n');
        assert(layout.labels[l as int]@ == layout@.labels[l as int]);
        let ghost mid = s@;
        let mut k: usize = 0;
        while k < 6
            invariant
                k <= 6,
                l < 3,
                s@ == mid + key_lines(layout@.keys[l as int], k as int),
            decreases 6 - k,
        {
            textbuf::push_str(&mut s, "key ");
            textbuf::push_decimal(&mut s, (k + 1) as u64);
            textbuf::push_str(&mut s, ": ");
            textbuf::push_str(&mut s, layout.keys[l][k].as_str());
            textbuf::push_char(&mut s, '\n');
            assert(layout.keys[l as int][k as int]@ == layout@.keys[l as int][k as int]);
            assert(s@ =~= mid + key_lines(layout@.keys[l as int], k + 1));
            k = k + 1;
        }
        assert(s@ =~= head + layers_text(layout@.labels, layout@.keys, l + 1));
        l = l + 1;
    }
    s
}

/// What the text has said so far: file name, current layer, labels and keys.
pub struct ReadState {
    pub filename: Option<Seq<char>>,
    pub layer: Option<int>,
    pub labels: Seq<Seq<char>>,
    pub keys: Seq<Seq<Seq<char>>>,
}

/// `s` without one leading space, if it has one.
pub open spec fn drop_space(s: Seq<char>) -> Seq<char> {
    if s.len() > 0 && s[0] == ' ' {
        s.drop_first()
    } else {
        s
    }
}

/// Index of the first `:` of `s`.
pub open spec fn first_colon(s: Seq<char>, i: int) -> Option<int>
    decreases s.len() - i,
{
    if i < 0 || i >= s.len() {
        None
    } else if s[i] == ':' {
        Some(i)
    } else {
        first_colon(s, i + 1)
    }
}

/// Reading SDAR lines from `i` on.
pub open spec fn read_lines(ls: Seq<Seq<char>>, i: int, st: ReadState) -> Option<ReadState>
    decreases ls.len() - i,
{
    if i < 0 || i >= ls.len() {
        Some(st)
    } else {
        let l = trim_ws(ls[i]);
        if l.len() == 0 {
            read_lines(ls, i + 1, st)
        } else if starts_with_chars(l, "; Filename:"@) {
            let name = trim_ws(l.skip(11));
            read_lines(
                ls,
                i + 1,
                if name.len() > 0 {
                    ReadState { filename: Some(name), ..st }
                } else {
                    st
                },
            )
        } else if l[0] == ';' {
            read_lines(ls, i + 1, st)
        } else if starts_with_chars(l, "[layer "@) && l.len() >= 8 && l.last() == ']' {
            match parse_usize(trim_ws(l.subrange(7, l.len() - 1))) {
                None => None,
                Some(n) => if n == 0 || n > 3 {
                    None
                } else {
                    read_lines(ls, i + 1, ReadState { layer: Some(n - 1), ..st })
                },
            }
        } else if st.layer is None {
            None
        } else if starts_with_chars(l, "label:"@) {
            let layer = st.layer->0;
            read_lines(
                ls,
                i + 1,
                ReadState { labels: st.labels.update(layer, drop_space(l.skip(6))), ..st },
            )
        } else if starts_with_chars(l, "key "@) {
            let rest = l.skip(4);
            match first_colon(rest, 0) {
                None => None,
                Some(c) => match parse_usize(trim_ws(rest.take(c))) {
                    None => None,
                    Some(k) => if k == 0 || k > 6 {
                        None
                    } else {
                        let layer = st.layer->0;
                        read_lines(
                            ls,
                            i + 1,
                            ReadState {
                                keys: st.keys.update(
                                    layer,
                                    st.keys[layer].update(k - 1, drop_space(rest.skip(c + 1))),
                                ),
                                ..st
                            },
                        )
                    },
                },
            }
        } else {
            None
        }
    }
}

pub open spec fn empty_labels() -> Seq<Seq<char>> {
    Seq::new(3, |l: int| Seq::<char>::empty())
}

/// Reading SDAR text: the layout, or `None` for malformed text.
pub open spec fn from_ascii_spec(text: Seq<char>) -> Option<ReadState> {
    read_lines(
        lines_spec(text),
        0,
        ReadState { filename: None, layer: None, labels: empty_labels(), keys: empty_keys() },
    )
}


/// Index of the first `:` of `s` at or after `i`.
fn find_colon(s: &Vec<char>, i: usize) -> (r: Option<usize>)
    requires
        i <= s@.len(),
    ensures
        match r {
            Some(p) => first_colon(s@, i as int) == Some(p as int) && i <= p < s@.len(),
            None => first_colon(s@, i as int) is None,
        },
{
    let mut k = i;
    while k < s.len()
        invariant
            i <= k <= s@.len(),
            first_colon(s@, i as int) == first_colon(s@, k as int),
        decreases s.len() - k,
    {
        if s[k] == ':' {
            return Some(k);
        }
        k = k + 1;
    }
    None
}

proof fn lemma_first_colon_shift(s: Seq<char>, off: int, i: int)
    requires
        0 <= off <= s.len(),
        0 <= i,
    ensures
        first_colon(s.skip(off), i) == match first_colon(s, off + i) {
            Some(p) => Some(p - off),
            None => None::<int>,
        },
    decreases s.len() - off - i,
{
    if i < s.len() - off {
        assert(s.skip(off)[i] == s[off + i]);
        lemma_first_colon_shift(s, off, i + 1);
    }
}

/// `v[from..]` without one leading space, as a string.
fn text_after(v: &Vec<char>, from: usize) -> (s: String)
    requires
        from <= v@.len(),
    ensures
        s@ == drop_space(v@.skip(from as int)),
{
    let start = if from < v.len() && v[from] == ' ' {
        from + 1
    } else {
        from
    };
    assert(start == from + 1 ==> v@.skip(from as int).drop_first() =~= v@.subrange(start as int, v@.len() as int));
    assert(start == from ==> v@.skip(from as int) =~= v@.subrange(start as int, v@.len() as int));
    let mut s = String::new();
    textbuf::push_chars(&mut s, v.as_slice(), start, v.len());
    s
}

pub open spec fn labels_view(a: [String; 3]) -> Seq<Seq<char>> {
    a@.map_values(|s: String| s@)
}

/// Parse SDAR text back into a layout. Blank lines and other `;` comment lines are
/// skipped.
#[verifier::rlimit(60)]
pub fn from_ascii(text: &str) -> (r: Result<ReserveLayout, ReserveError>)
    ensures
        match r {
            Ok(l) => from_ascii_spec(text@) matches Some(st) && l@.filename == st.filename && l@.labels
                == st.labels && l@.keys == st.keys,
            Err(_) => from_ascii_spec(text@) is None,
        },
{
    let chars = textbuf::chars_of(text);
    let ls = split_lines(&chars);
    let ghost lines = lines_spec(text@);
    let nls = ls.len();
    let mut filename: Option<String> = None;
    let mut layer: Option<usize> = None;
    let mut labels: [String; 3] = [String::new(), String::new(), String::new()];
    let mut keys: [[String; 6]; 3] = [empty_row(), empty_row(), empty_row()];
    assert(labels_view(labels) =~= empty_labels());
    assert(layout_keys(keys) =~= empty_keys());
    let name_p: [char; 11] = [';', ' ', 'F', 'i', 'l', 'e', 'n', 'a', 'm', 'e', ':'];
    let layer_p: [char; 7] = ['[', 'l', 'a', 'y', 'e', 'r', ' '];
    let label_p: [char; 6] = ['l', 'a', 'b', 'e', 'l', ':'];
    let key_p: [char; 4] = ['k', 'e', 'y', ' '];
    proof {
        reveal_strlit("; Filename:");
        reveal_strlit("[layer ");
        reveal_strlit("label:");
        reveal_strlit("key ");
        assert(name_p@ =~= "; Filename:"@);
        assert(layer_p@ =~= "[layer "@);
        assert(label_p@ =~= "label:"@);
        assert(key_p@ =~= "key "@);
    }
    let mut i: usize = 0;
    while i < nls
        invariant
            nls == ls@.len() == lines.len(),
            lines == lines_spec(text@),
            forall|j: int| 0 <= j < ls@.len() ==> (#[trigger] ls@[j])@ == lines[j],
            i <= nls,
            name_p@ == "; Filename:"@,
            layer_p@ == "[layer "@,
            label_p@ == "label:"@,
            key_p@ == "key "@,
            layer matches Some(x) ==> x < 3,
            from_ascii_spec(text@) == read_lines(
                lines,
                i as int,
                ReadState {
                    filename: match filename {
                        Some(n) => Some(n@),
                        None => None,
                    },
                    layer: match layer {
                        Some(x) => Some(x as int),
                        None => None,
                    },
                    labels: labels_view(labels),
                    keys: layout_keys(keys),
                },
            ),
        decreases nls - i,
    {
        let part = sub_chars(&ls[i], 0, ls[i].len());
        let (a, b) = trim_bounds(&part);
        let l = sub_chars(&part, a, b);
        assert(part@ =~= lines[i as int]);
        let n = l.len();
        if n == 0 {
            i = i + 1;
        } else if chars_start_with(&l, name_p.as_slice()) {
            let tail = sub_chars(&l, 11, n);
            let (ta, tb) = trim_bounds(&tail);
            assert(tail@ =~= l@.skip(11));
            if tb > ta {
                let mut name = String::new();
                textbuf::push_chars(&mut name, tail.as_slice(), ta, tb);
                filename = Some(name);
            }
            i = i + 1;
        } else if l[0] == ';' {
            i = i + 1;
        } else if chars_start_with(&l, layer_p.as_slice()) && n >= 8 && l[n - 1] == ']' {
            let num = sub_chars(&l, 7, n - 1);
            let (na, nb) = trim_bounds(&num);
            let num_t = sub_chars(&num, na, nb);
            match crate::variables::parse_usize_chars(&num_t) {
                Some(v) => {
                    if v == 0 || v > 3 {
                        return Err(ReserveError::Syntax(String::from_str("layer number out of range")));
                    }
                    layer = Some(v - 1);
                    i = i + 1;
                },
                None => {
                    return Err(ReserveError::Syntax(String::from_str("bad layer header")));
                },
            }
        } else if layer.is_none() {
            return Err(ReserveError::Syntax(String::from_str("line outside any [layer N] section")));
        } else if chars_start_with(&l, label_p.as_slice()) {
            let ly = match layer {
                Some(x) => x,
                None => 0,
            };
            let t = text_after(&l, 6);
            let ghost old_labels = labels_view(labels);
            labels[ly] = t;
            assert(labels_view(labels) =~= old_labels.update(ly as int, t@));
            i = i + 1;
        } else if chars_start_with(&l, key_p.as_slice()) {
            let ly = match layer {
                Some(x) => x,
                None => 0,
            };
            let ghost rest = l@.skip(4);
            let c = match find_colon(&l, 4) {
                Some(c) => c,
                None => {
                    proof {
                        lemma_first_colon_shift(l@, 4, 0);
                    }
                    return Err(ReserveError::Syntax(String::from_str("malformed key line")));
                },
            };
            proof {
                lemma_first_colon_shift(l@, 4, 0);
            }
            let num = sub_chars(&l, 4, c);
            let (na, nb) = trim_bounds(&num);
            let num_t = sub_chars(&num, na, nb);
            assert(rest.take(c - 4) =~= num@);
            let k = match crate::variables::parse_usize_chars(&num_t) {
                Some(k) => k,
                None => {
                    return Err(ReserveError::Syntax(String::from_str("bad key number")));
                },
            };
            if k == 0 || k > 6 {
                return Err(ReserveError::Syntax(String::from_str("key number out of range")));
            }
            let t = text_after(&l, c + 1);
            assert(rest.skip(c - 4 + 1) =~= l@.skip(c + 1));
            let ghost old_keys = layout_keys(keys);
            keys[ly][k - 1] = t;
            assert(layout_keys(keys) =~= old_keys.update(
                ly as int,
                old_keys[ly as int].update(k - 1, t@),
            )) by {
                assert(row_view(keys@[ly as int]) =~= old_keys[ly as int].update(k - 1, t@));
            }
            i = i + 1;
        } else {
            return Err(ReserveError::Syntax(String::from_str("unrecognized line")));
        }
    }
    Ok(ReserveLayout { filename, labels, keys })
}

// ── the device's key codes ──────────────────────────────────────────────

/// The key codes of the device, layer by layer: keys 1-6 of layer I are `01`-`06`, of
/// layer II `11`-`16`, of layer III `09`-`0E`.
pub open spec fn device_key_codes() -> Seq<Seq<u8>> {
    seq![
        seq![0x01u8, 0x02u8, 0x03u8, 0x04u8, 0x05u8, 0x06u8],
        seq![0x11u8, 0x12u8, 0x13u8, 0x14u8, 0x15u8, 0x16u8],
        seq![0x09u8, 0x0Au8, 0x0Bu8, 0x0Cu8, 0x0Du8, 0x0Eu8],
    ]
}

/// A pool byte that is neither the terminator nor one of the device's key codes.
pub open spec fn content_byte(b: u8) -> bool {
    b != 0 && !(0x01 <= b <= 0x06) && !(0x11 <= b <= 0x16) && !(0x09 <= b <= 0x0E)
}

/// The keys of a layout whose only non-empty key is key `k` of layer `l`.
pub open spec fn one_key(l: int, k: int, c: Seq<char>) -> Seq<Seq<Seq<char>>> {
    empty_keys().update(l, empty_keys()[l].update(k, c))
}

proof fn lemma_codes(l: int, k: int)
    requires
        0 <= l < 3,
        0 <= k < 6,
    ensures
        key_code(l, k) == device_key_codes()[l][k],
        key_index_spec(device_key_codes()[l][k]) == Some((l, k)),
{
    let t = device_key_codes();
    assert(t[0] =~= seq![0x01u8, 0x02u8, 0x03u8, 0x04u8, 0x05u8, 0x06u8]);
    assert(t[1] =~= seq![0x11u8, 0x12u8, 0x13u8, 0x14u8, 0x15u8, 0x16u8]);
    assert(t[2] =~= seq![0x09u8, 0x0Au8, 0x0Bu8, 0x0Cu8, 0x0Du8, 0x0Eu8]);
    if l == 0 {
        assert(t[0][k] == k + 1);
    } else if l == 1 {
        assert(t[1][k] == k + 0x11);
    } else {
        assert(t[2][k] == k + 0x09);
    }
}

proof fn lemma_pool_empty_run(keys: Seq<Seq<Seq<char>>>, kws: Seq<KeywordView>, idx: int, j: int, pool: Seq<u8>)
    requires
        0 <= idx <= j <= 18,
        forall|x: int| idx <= x < j ==> (#[trigger] keys[x / 6][x % 6]).len() == 0,
    ensures
        pool_from(keys, kws, idx, pool) == pool_from(keys, kws, j, pool),
    decreases j - idx,
{
    if idx < j {
        lemma_pool_empty_run(keys, kws, idx + 1, j, pool);
    }
}

/// Encoding a layout whose only non-empty key is key `k` of layer `l` puts that key's
/// device code at the pool's start (payload offset 78), its tokens after it, and the
/// terminator after them.
pub proof fn lemma_encode_key_code(
    labels: Seq<Seq<char>>,
    l: int,
    k: int,
    c: Seq<char>,
    kws: Seq<KeywordView>,
)
    requires
        0 <= l < 3,
        0 <= k < 6,
        c.len() > 0,
        tok_from(encode_lossy_seq(c), 0, kws).len() + 2 <= 110,
    ensures
        ({
            let t = tok_from(encode_lossy_seq(c), 0, kws);
            encode_spec(labels, one_key(l, k, c), kws) matches Ok(p) && p.len() == 188 && p[78]
                == device_key_codes()[l][k] && p.subrange(79, 79 + t.len() as int) == t && p[79 + t.len() as int] == 0
        }),
{
    let keys = one_key(l, k, c);
    let t = tok_from(encode_lossy_seq(c), 0, kws);
    let j = 6 * l + k;
    assert forall|x: int| 0 <= x < 18 && x != j implies (#[trigger] keys[x / 6][x % 6]).len() == 0 by {
        if x / 6 == l {
            assert(x % 6 != k);
        }
    }
    lemma_pool_empty_run(keys, kws, 0, j, Seq::empty());
    assert(j / 6 == l && j % 6 == k);
    assert(keys[l][k] == c);
    let pool = Seq::<u8>::empty() + seq![key_code(l, k)] + t;
    lemma_pool_empty_run(keys, kws, j + 1, 18, pool);
    assert(pool_from(keys, kws, 0, Seq::empty()) == Ok::<Seq<u8>, nat>(pool));
    lemma_codes(l, k);
    let p = encode_spec(labels, keys, kws)->Ok_0;
    let lb = label_bytes(labels[0]) + label_bytes(labels[1]) + label_bytes(labels[2]);
    assert(lb.len() == 78);
    assert(p == lb + pool + Seq::new((110 - pool.len()) as nat, |i: int| 0u8));
    assert(p[78] == pool[0]);
    assert(p.subrange(79, 79 + t.len() as int) =~= t);
    assert(p[79 + t.len() as int] == 0);
}

proof fn lemma_content_run(pool: Seq<u8>, i: int, e: int)
    requires
        0 <= i <= e < pool.len(),
        forall|x: int| i <= x < e ==> content_byte(#[trigger] pool[x]),
        pool[e] == 0,
    ensures
        content_end(pool, i) == e,
    decreases e - i,
{
    if i < e {
        assert(content_byte(pool[i]));
        lemma_content_run(pool, i + 1, e);
    }
}

/// Decoding a payload whose pool holds one key, under the device code of key `k` of
/// layer `l`, gives that key its content and leaves every other key empty.
pub proof fn lemma_decode_key_code(p: Seq<u8>, l: int, k: int, n: int, kws: Seq<KeywordView>)
    requires
        p.len() == 188,
        0 <= l < 3,
        0 <= k < 6,
        0 <= n,
        79 + n < 188,
        p[78] == device_key_codes()[l][k],
        forall|x: int| 79 <= x < 79 + n ==> content_byte(#[trigger] p[x]),
        p[79 + n] == 0,
    ensures
        decode_spec(p, kws) == Ok::<(Seq<Seq<char>>, Seq<Seq<Seq<char>>>), PoolFault>(
            (
                seq![label_at(p, 0), label_at(p, 1), label_at(p, 2)],
                one_key(l, k, detok_from(p.subrange(79, 79 + n), 0, kws)),
            ),
        ),
{
    let pool = p.skip(78);
    lemma_codes(l, k);
    assert(pool[0] == device_key_codes()[l][k]);
    assert forall|x: int| 1 <= x < 1 + n implies content_byte(#[trigger] pool[x]) by {
        assert(pool[x] == p[78 + x]);
    }
    assert(pool[1 + n] == 0);
    lemma_content_run(pool, 1, 1 + n);
    assert(pool.subrange(1, 1 + n) =~= p.subrange(79, 79 + n));
    let c = detok_from(p.subrange(79, 79 + n), 0, kws);
    let upd = empty_keys().update(l, empty_keys()[l].update(k, c));
    assert(pool_keys(pool, 1 + n, upd, kws) == Ok::<Seq<Seq<Seq<char>>>, PoolFault>(upd));
    assert(pool_keys(pool, 0, empty_keys(), kws) == Ok::<Seq<Seq<Seq<char>>>, PoolFault>(upd));
}

/// Where the labels go: label `l` (0-2) fills payload bytes `26 * l .. 26 * l + 26` with
/// its CP437 bytes (at most 26 of them) and NUL bytes after them.
pub proof fn lemma_encode_labels(labels: Seq<Seq<char>>, keys: Seq<Seq<Seq<char>>>, kws: Seq<KeywordView>, l: int, i: int)
    requires
        labels.len() == 3,
        0 <= l < 3,
        0 <= i < 26,
    ensures
        encode_spec(labels, keys, kws) matches Ok(p) ==> ({
            let e = encode_lossy_seq(labels[l]);
            p[26 * l + i] == if i < e.len() { e[i] } else { 0u8 }
        }),
{
    if let Ok(p) = encode_spec(labels, keys, kws) {
        let b0 = label_bytes(labels[0]);
        let b1 = label_bytes(labels[1]);
        let b2 = label_bytes(labels[2]);
        assert(b0.len() == 26 && b1.len() == 26 && b2.len() == 26);
        let b = if l == 0 { b0 } else if l == 1 { b1 } else { b2 };
        assert(p[26 * l + i] == b[i]);
    }
}

/// Where the labels come from: label `l` of a decoded payload is the CP437 text of bytes
/// `26 * l .. 26 * l + 26`, without its trailing NULs.
pub proof fn lemma_decode_labels(p: Seq<u8>, kws: Seq<KeywordView>)
    ensures
        decode_spec(p, kws) matches Ok((labels, _)) ==> labels.len() == 3 && forall|l: int|
            0 <= l < 3 ==> #[trigger] labels[l] == trim_nul(decode_seq(p.subrange(26 * l, 26 * l + 26))),
{
}

/// The keys of a layout whose only non-empty keys are key `k1` of layer `l1` and key `k2`
/// of layer `l2`.
pub open spec fn two_keys(l1: int, k1: int, c1: Seq<char>, l2: int, k2: int, c2: Seq<char>) -> Seq<Seq<Seq<char>>> {
    one_key(l1, k1, c1).update(l2, one_key(l1, k1, c1)[l2].update(k2, c2))
}

/// The pool lists the keys layer by layer, key by key: of two keys, the one that comes
/// first in that order has its entry (device code, then tokens) first, and the other's
/// entry follows right after it, then the terminator.
pub proof fn lemma_encode_key_order(
    labels: Seq<Seq<char>>,
    l1: int,
    k1: int,
    c1: Seq<char>,
    l2: int,
    k2: int,
    c2: Seq<char>,
    kws: Seq<KeywordView>,
)
    requires
        0 <= l1 < 3,
        0 <= k1 < 6,
        0 <= l2 < 3,
        0 <= k2 < 6,
        6 * l1 + k1 < 6 * l2 + k2,
        c1.len() > 0,
        c2.len() > 0,
        tok_from(encode_lossy_seq(c1), 0, kws).len() + tok_from(encode_lossy_seq(c2), 0, kws).len() + 3
            <= 110,
    ensures
        ({
            let t1 = tok_from(encode_lossy_seq(c1), 0, kws);
            let t2 = tok_from(encode_lossy_seq(c2), 0, kws);
            let e2 = 79 + t1.len() as int;
            encode_spec(labels, two_keys(l1, k1, c1, l2, k2, c2), kws) matches Ok(p) && p.len() == 188
                && p[78] == device_key_codes()[l1][k1] && p.subrange(79, e2) == t1 && p[e2]
                == device_key_codes()[l2][k2] && p.subrange(e2 + 1, e2 + 1 + t2.len()) == t2 && p[e2 + 1
                + t2.len()] == 0
        }),
{
    let keys = two_keys(l1, k1, c1, l2, k2, c2);
    let t1 = tok_from(encode_lossy_seq(c1), 0, kws);
    let t2 = tok_from(encode_lossy_seq(c2), 0, kws);
    let j1 = 6 * l1 + k1;
    let j2 = 6 * l2 + k2;
    assert(j1 / 6 == l1 && j1 % 6 == k1);
    assert(j2 / 6 == l2 && j2 % 6 == k2);
    assert forall|x: int| 0 <= x < 18 && x != j1 && x != j2 implies (#[trigger] keys[x / 6][x % 6]).len() == 0 by {
        if x / 6 == l1 {
            assert(x % 6 != k1);
        }
        if x / 6 == l2 {
            assert(x % 6 != k2);
        }
    }
    assert(keys[l1][k1] == c1);
    assert(keys[l2][k2] == c2);
    lemma_pool_empty_run(keys, kws, 0, j1, Seq::empty());
    let pool1 = Seq::<u8>::empty() + seq![key_code(l1, k1)] + t1;
    assert(pool_from(keys, kws, j1, Seq::empty()) == pool_from(keys, kws, j1 + 1, pool1));
    lemma_pool_empty_run(keys, kws, j1 + 1, j2, pool1);
    let pool2 = pool1 + seq![key_code(l2, k2)] + t2;
    assert(pool_from(keys, kws, j2, pool1) == pool_from(keys, kws, j2 + 1, pool2));
    lemma_pool_empty_run(keys, kws, j2 + 1, 18, pool2);
    lemma_codes(l1, k1);
    lemma_codes(l2, k2);
    let p = encode_spec(labels, keys, kws)->Ok_0;
    let lb = label_bytes(labels[0]) + label_bytes(labels[1]) + label_bytes(labels[2]);
    assert(lb.len() == 78);
    assert(p == lb + pool2 + Seq::new((110 - pool2.len()) as nat, |i: int| 0u8));
    let e2 = 79 + t1.len() as int;
    assert(p[78] == pool2[0]);
    assert(p.subrange(79, e2) =~= t1);
    assert(p[e2] == pool2[1 + t1.len() as int]);
    assert(p.subrange(e2 + 1, e2 + 1 + t2.len()) =~= t2);
    assert(p[e2 + 1 + t2.len()] == 0);
}

} // verus!
