//! The two header / keyword-table flavors, and the BASIC keyword table the tokenizer
//! matches against: each keyword's spelling and its 2-byte token code.

use vstd::prelude::*;
use vstd::string::StringSliceAdditionalSpecFns;

verus! {

/// Header and keyword-table flavor: CE-158 (PC-1500 family) or PC-1600.
#[derive(Clone, Copy, Debug, PartialEq, Eq, Structural)]
pub enum Device {
    Pc1500,
    Pc1600,
}

/// Token code of `REM`: everything after it on a line is kept verbatim.
pub const REM_CODE: u16 = 0xF1AB;

/// One keyword: its spelling (ASCII bytes) and its token code.
#[derive(Clone, Debug, PartialEq, Eq)]
pub struct Keyword {
    pub name: Vec<u8>,
    pub code: u16,
}

/// The content of a [`Keyword`].
pub struct KeywordView {
    pub name: Seq<u8>,
    pub code: u16,
}

impl View for Keyword {
    type V = KeywordView;

    open spec fn view(&self) -> KeywordView {
        KeywordView { name: self.name@, code: self.code }
    }
}

impl Keyword {
    pub fn new(name: &str, code: u16) -> (k: Keyword)
        ensures
            k@.name == name.spec_bytes(),
            k@.code == code,
    {
        let b = name.as_bytes();
        let mut v: Vec<u8> = Vec::new();
        let mut i: usize = 0;
        while i < b.len()
            invariant
                i <= b@.len(),
                v@ == b@.take(i as int),
            decreases b.len() - i,
        {
            v.push(b[i]);
            i = i + 1;
            assert(v@ =~= b@.take(i as int));
        }
        assert(b@.take(b@.len() as int) =~= b@);
        Keyword { name: v, code }
    }
}

/// The keywords of `kws`, as views.
pub open spec fn kw_views(kws: Seq<Keyword>) -> Seq<KeywordView> {
    kws.map_values(|k: Keyword| k@)
}

/// `name` is a prefix of `s`.
pub open spec fn is_prefix(name: Seq<u8>, s: Seq<u8>) -> bool {
    name.len() <= s.len() && s.take(name.len() as int) == name
}

/// Index of the longest keyword among the first `n` that is a prefix of `s` (the earlier
/// one on a tie).
pub open spec fn longest_among(kws: Seq<KeywordView>, s: Seq<u8>, n: int) -> Option<int>
    decreases n,
{
    if n <= 0 {
        None
    } else {
        let prev = longest_among(kws, s, n - 1);
        if is_prefix(kws[n - 1].name, s) && (prev is None || kws[n - 1].name.len() > kws[prev->0].name.len()) {
            Some(n - 1)
        } else {
            prev
        }
    }
}

/// The longest keyword that `s` starts with.
pub open spec fn longest_spec(kws: Seq<KeywordView>, s: Seq<u8>) -> Option<int> {
    longest_among(kws, s, kws.len() as int)
}

/// Index of the first keyword of `kws` among the first `n` satisfying: spelled `name`.
pub open spec fn first_named(kws: Seq<KeywordView>, name: Seq<u8>, n: int) -> Option<int>
    decreases n,
{
    if n <= 0 {
        None
    } else if first_named(kws, name, n - 1) is Some {
        first_named(kws, name, n - 1)
    } else if kws[n - 1].name == name {
        Some(n - 1)
    } else {
        None
    }
}

/// Index of the first keyword of `kws` among the first `n` with token `code`.
pub open spec fn first_coded(kws: Seq<KeywordView>, code: u16, n: int) -> Option<int>
    decreases n,
{
    if n <= 0 {
        None
    } else if first_coded(kws, code, n - 1) is Some {
        first_coded(kws, code, n - 1)
    } else if kws[n - 1].code == code {
        Some(n - 1)
    } else {
        None
    }
}

proof fn lemma_first_named_stable(kws: Seq<KeywordView>, name: Seq<u8>, m: int, n: int)
    requires
        0 <= m <= n,
        first_named(kws, name, m) is Some,
    ensures
        first_named(kws, name, n) == first_named(kws, name, m),
    decreases n - m,
{
    if n > m {
        lemma_first_named_stable(kws, name, m, n - 1);
    }
}

proof fn lemma_first_coded_stable(kws: Seq<KeywordView>, code: u16, m: int, n: int)
    requires
        0 <= m <= n,
        first_coded(kws, code, m) is Some,
    ensures
        first_coded(kws, code, n) == first_coded(kws, code, m),
    decreases n - m,
{
    if n > m {
        lemma_first_coded_stable(kws, code, m, n - 1);
    }
}

/// A token's first byte: `E0..=FF`.
pub open spec fn token_lead(b: u8) -> bool {
    b >= 0xE0
}

/// The keyword table of one device.
pub struct Registry {
    device: Device,
    keywords: Vec<Keyword>,
}

impl Registry {
    /// The device the table belongs to.
    pub closed spec fn spec_device(&self) -> Device {
        self.device
    }

    /// The keywords, in table order.
    pub closed spec fn spec_keywords(&self) -> Seq<KeywordView> {
        kw_views(self.keywords@)
    }

    /// Every keyword has at least one letter.
    pub open spec fn wf(&self) -> bool {
        forall|i: int| 0 <= i < self.spec_keywords().len() ==> #[trigger] self.spec_keywords()[i].name.len() > 0
    }

    /// A table for `device` holding `keywords`, which must all be non-empty.
    pub fn new(device: Device, keywords: Vec<Keyword>) -> (r: Registry)
        requires
            forall|i: int| 0 <= i < keywords@.len() ==> #[trigger] keywords@[i].name@.len() > 0,
        ensures
            r.wf(),
            r.spec_device() == device,
            r.spec_keywords() == kw_views(keywords@),
    {
        Registry { device, keywords }
    }

    pub fn device(&self) -> (d: Device)
        ensures
            d == self.spec_device(),
    {
        self.device
    }

    /// The longest keyword that `bytes` starts with.
    pub fn longest_keyword_prefix(&self, bytes: &[u8]) -> (r: Option<&Keyword>)
        ensures
            match r {
                Some(k) => longest_spec(self.spec_keywords(), bytes@) matches Some(i) && k@
                    == self.spec_keywords()[i],
                None => longest_spec(self.spec_keywords(), bytes@) is None,
            },
    {
        let ghost kws = self.spec_keywords();
        let mut best: Option<usize> = None;
        let mut i: usize = 0;
        while i < self.keywords.len()
            invariant
                i <= self.keywords@.len(),
                kws == kw_views(self.keywords@),
                match best {
                    Some(j) => longest_among(kws, bytes@, i as int) == Some(j as int) && j < i,
                    None => longest_among(kws, bytes@, i as int) is None,
                },
            decreases self.keywords.len() - i,
        {
            let name = &self.keywords[i].name;
            if starts_with(bytes, name) {
                let longer = match best {
                    None => true,
                    Some(j) => name.len() > self.keywords[j].name.len(),
                };
                if longer {
                    best = Some(i);
                }
            }
            i = i + 1;
        }
        match best {
            Some(j) => Some(&self.keywords[j]),
            None => None,
        }
    }

    /// The keyword spelled `name`.
    pub fn lookup(&self, name: &str) -> (r: Option<&Keyword>)
        ensures
            match r {
                Some(k) => first_named(self.spec_keywords(), name.spec_bytes(), self.spec_keywords().len() as int)
                    matches Some(i) && k@ == self.spec_keywords()[i],
                None => first_named(self.spec_keywords(), name.spec_bytes(), self.spec_keywords().len() as int) is None,
            },
    {
        let ghost kws = self.spec_keywords();
        let b = name.as_bytes();
        let mut i: usize = 0;
        while i < self.keywords.len()
            invariant
                i <= self.keywords@.len(),
                kws == kw_views(self.keywords@),
                b@ == name.spec_bytes(),
                first_named(kws, b@, i as int) is None,
            decreases self.keywords.len() - i,
        {
            if same_bytes(&self.keywords[i].name, b) {
                proof {
                    assert(kws[i as int] == self.keywords@[i as int]@);
                    lemma_first_named_stable(kws, b@, i + 1, kws.len() as int);
                }
                return Some(&self.keywords[i]);
            }
            i = i + 1;
        }
        None
    }

    /// The keyword with token `code`.
    pub fn lookup_code(&self, code: u16) -> (r: Option<&Keyword>)
        ensures
            match r {
                Some(k) => first_coded(self.spec_keywords(), code, self.spec_keywords().len() as int)
                    matches Some(i) && k@ == self.spec_keywords()[i],
                None => first_coded(self.spec_keywords(), code, self.spec_keywords().len() as int) is None,
            },
    {
        let ghost kws = self.spec_keywords();
        let mut i: usize = 0;
        while i < self.keywords.len()
            invariant
                i <= self.keywords@.len(),
                kws == kw_views(self.keywords@),
                first_coded(kws, code, i as int) is None,
            decreases self.keywords.len() - i,
        {
            if self.keywords[i].code == code {
                proof {
                    assert(kws[i as int] == self.keywords@[i as int]@);
                    lemma_first_coded_stable(kws, code, i + 1, kws.len() as int);
                }
                return Some(&self.keywords[i]);
            }
            i = i + 1;
        }
        None
    }

    /// `b` can start a 2-byte keyword token.
    pub fn is_two_byte_token_high_byte(&self, b: u8) -> (r: bool)
        ensures
            r == token_lead(b),
    {
        b >= 0xE0
    }
}

/// `bytes` starts with `name`.
pub fn starts_with(bytes: &[u8], name: &Vec<u8>) -> (r: bool)
    ensures
        r == is_prefix(name@, bytes@),
{
    if name.len() > bytes.len() {
        return false;
    }
    let mut k: usize = 0;
    while k < name.len()
        invariant
            k <= name@.len() <= bytes@.len(),
            forall|j: int| 0 <= j < k ==> bytes@[j] == name@[j],
        decreases name.len() - k,
    {
        if bytes[k] != name[k] {
            assert(bytes@.take(name@.len() as int)[k as int] != name@[k as int]);
            return false;
        }
        k = k + 1;
    }
    assert(bytes@.take(name@.len() as int) =~= name@);
    true
}

/// `a` and `b` hold the same bytes.
pub fn same_bytes(a: &Vec<u8>, b: &[u8]) -> (r: bool)
    ensures
        r == (a@ == b@),
{
    if a.len() != b.len() {
        return false;
    }
    let mut k: usize = 0;
    while k < a.len()
        invariant
            k <= a@.len() == b@.len(),
            forall|j: int| 0 <= j < k ==> a@[j] == b@[j],
        decreases a.len() - k,
    {
        if a[k] != b[k] {
            return false;
        }
        k = k + 1;
    }
    assert(a@ =~= b@);
    true
}

} // verus!
