//! File-name rules shared by `get` and `put`: the extension an output file gets when it
//! has none, and the 16-character name a synthesized header carries.

use vstd::prelude::*;

use crate::header::{ascii_upper, to_ascii_upper, FileType};
use crate::textbuf;

verus! {

pub open spec fn ext_spec(t: FileType) -> Seq<char> {
    match t {
        FileType::Basic => "bas"@,
        FileType::Machine => "bin"@,
        FileType::Reserve => "sdar"@,
        FileType::Variables => "sdav"@,
    }
}

/// Extension given to an output file that has none: `bas` for BASIC, `bin` for machine
/// language, `sdar` for a Reserve Area and `sdav` for Variables.
pub fn ext_for(file_type: FileType) -> (e: &'static str)
    ensures
        e@ == ext_spec(file_type),
{
    match file_type {
        FileType::Basic => "bas",
        FileType::Machine => "bin",
        FileType::Reserve => "sdar",
        FileType::Variables => "sdav",
    }
}

/// The final component of the path `p`, as the host platform's path rules give it.
pub uninterp spec fn path_file_name(p: Seq<char>) -> Option<Seq<char>>;

/// The final component of the path `p` without its extension, as the host platform's
/// path rules give it.
pub uninterp spec fn path_file_stem(p: Seq<char>) -> Option<Seq<char>>;

/// std `Path::file_name` of `p`, as text: the result is named `path_file_name`; the name
/// of a path made from a `&str` is valid UTF-8, so the conversion back loses nothing.
#[verifier::external_body]
fn file_name_of(p: &str) -> (r: Option<String>)
    ensures
        match r {
            Some(s) => path_file_name(p@) == Some(s@),
            None => path_file_name(p@) is None,
        },
{
    std::path::Path::new(p).file_name().and_then(|s| s.to_str()).map(|s| s.to_string())
}

/// std `Path::file_stem` of `p`, as text: the result is named `path_file_stem`.
#[verifier::external_body]
pub(crate) fn file_stem_of(p: &str) -> (r: Option<String>)
    ensures
        match r {
            Some(s) => path_file_stem(p@) == Some(s@),
            None => path_file_stem(p@) is None,
        },
{
    std::path::Path::new(p).file_stem().and_then(|s| s.to_str()).map(|s| s.to_string())
}

/// What std `Path::extension` gives for the path `p`.
pub uninterp spec fn path_extension(p: Seq<char>) -> Option<Seq<char>>;

/// std `Path::extension` of `p`, as text: the result is named `path_extension`.
#[verifier::external_body]
pub fn extension_of(p: &str) -> (r: Option<String>)
    ensures
        match r {
            Some(s) => path_extension(p@) == Some(s@),
            None => path_extension(p@) is None,
        },
{
    std::path::Path::new(p).extension().and_then(|s| s.to_str()).map(|s| s.to_string())
}

/// `name`, with `.ext` appended unless the file name (`file_name`, the path's final
/// component) holds a `.`.
pub open spec fn with_ext_spec(name: Seq<char>, file_name: Option<Seq<char>>, ext: Seq<char>) -> Seq<char> {
    match file_name {
        Some(f) if f.contains('.') => name,
        _ => name + seq!['.'] + ext,
    }
}

/// `s` holds a `.`.
fn has_dot(s: &str) -> (r: bool)
    ensures
        r == s@.contains('.'),
{
    let cs = textbuf::chars_of(s);
    let mut i: usize = 0;
    while i < cs.len()
        invariant
            i <= cs@.len(),
            cs@ == s@,
            forall|j: int| 0 <= j < i ==> cs@[j] != '.',
        decreases cs@.len() - i,
    {
        if cs[i] == '.' {
            return true;
        }
        i = i + 1;
    }
    false
}

/// `name` with `.ext` appended unless `file_name`, its final component, has an
/// extension already.
pub fn append_ext_to(name: &str, file_name: Option<&str>, ext: &str) -> (r: String)
    ensures
        r@ == with_ext_spec(
            name@,
            match file_name {
                Some(f) => Some(f@),
                None => None,
            },
            ext@,
        ),
{
    let has_ext = match file_name {
        Some(f) => has_dot(f),
        None => false,
    };
    let mut out = name.to_owned();
    if !has_ext {
        textbuf::push_char(&mut out, '.');
        textbuf::push_str(&mut out, ext);
    }
    out
}

/// Append `ext` to `name` if it has no extension (no `.` in the final path segment).
pub fn append_ext_if_missing(name: &str, ext: &str) -> (r: String)
    ensures
        r@ == with_ext_spec(name@, path_file_name(name@), ext@),
{
    let f = file_name_of(name);
    match f {
        Some(s) => append_ext_to(name, Some(s.as_str()), ext),
        None => append_ext_to(name, None, ext),
    }
}

/// The header name made from a file stem: upper-cased (ASCII letters), at most 16
/// characters.
pub open spec fn basename_spec(stem: Seq<char>) -> Seq<char> {
    let t = if stem.len() > 16 {
        stem.take(16)
    } else {
        stem
    };
    t.map_values(|c: char| ascii_upper(c))
}

/// The header name for a file stem: upper-cased, truncated to 16 characters.
pub fn basename_from_stem(stem: &str) -> (r: String)
    ensures
        r@ == basename_spec(stem@),
{
    let cs = textbuf::chars_of(stem);
    let n = if cs.len() > 16 {
        16
    } else {
        cs.len()
    };
    let mut out = String::new();
    let mut i: usize = 0;
    while i < n
        invariant
            i <= n <= cs@.len(),
            cs@ == stem@,
            n == (if cs@.len() > 16 {
                16
            } else {
                cs@.len()
            }),
            out@ == cs@.take(i as int).map_values(|c: char| ascii_upper(c)),
        decreases n - i,
    {
        textbuf::push_char(&mut out, to_ascii_upper(cs[i]));
        i = i + 1;
        assert(out@ =~= cs@.take(i as int).map_values(|c: char| ascii_upper(c)));
    }
    assert(cs@.take(n as int) =~= (if stem@.len() > 16 {
        stem@.take(16)
    } else {
        stem@
    }));
    out
}

/// The file name for a synthesized header from a `put` input path: its stem (no
/// extension), upper-cased, truncated to 16 characters; empty when the path has none.
pub fn synth_basename(input_path: &str) -> (r: String)
    ensures
        r@ == basename_spec(
            match path_file_stem(input_path@) {
                Some(s) => s,
                None => Seq::empty(),
            },
        ),
{
    match file_stem_of(input_path) {
        Some(s) => basename_from_stem(s.as_str()),
        None => {
            let r = basename_from_stem("");
            proof {
                reveal_strlit("");
            }
            r
        },
    }
}

} // verus!
