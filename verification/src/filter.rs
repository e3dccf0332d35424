//! The exclusion filter: pattern matching against path strings, the
//! built-in exclusion list, and binary-content judgment.

use vstd::prelude::*;
use crate::strings::str_eq;

verus! {

/// Whether a pattern is accepted by the regex engine; a function of the
/// pattern alone.
pub uninterp spec fn regex_valid(pattern: Seq<char>) -> bool;

/// Whether a valid pattern matches somewhere inside a text; a function
/// of pattern and text alone.
pub uninterp spec fn regex_match(pattern: Seq<char>, text: Seq<char>) -> bool;

/// Relies on `regex::Regex::new`: compilation succeeds or fails based on
/// the pattern string alone.
#[verifier::external_body]
pub fn check_pattern(pattern: &str) -> (r: bool)
    ensures
        r == regex_valid(pattern@),
{
    regex::Regex::new(pattern).is_ok()
}

/// Relies on `regex::Regex::new` and `regex::Regex::is_match`: for a
/// pattern that compiles, whether it matches somewhere in the text is a
/// function of pattern and text.
#[verifier::external_body]
pub fn pattern_matches(pattern: &str, text: &str) -> (r: bool)
    requires
        regex_valid(pattern@),
    ensures
        r == regex_match(pattern@, text@),
{
    match regex::Regex::new(pattern) {
        Ok(re) => re.is_match(text),
        Err(_) => false,
    }
}

/// The views of a list of strings.
pub open spec fn string_views(ps: Seq<String>) -> Seq<Seq<char>> {
    ps.map_values(|p: String| p@)
}

/// Every pattern in the list compiles.
pub open spec fn all_valid(pats: Seq<Seq<char>>) -> bool {
    forall|i: int| 0 <= i < pats.len() ==> regex_valid(#[trigger] pats[i])
}

/// Some pattern in the list matches the text.
pub open spec fn matches_any(pats: Seq<Seq<char>>, text: Seq<char>) -> bool {
    exists|i: int| 0 <= i < pats.len() && regex_match(#[trigger] pats[i], text)
}

/// The patterns always excluded, regardless of caller input:
/// version-control and IDE directories, OS metadata, dependency and
/// build output, and lock files.
pub open spec fn builtin_exclude_patterns() -> Seq<Seq<char>> {
    seq![
        "\\.git"@,
        "\\.svn"@,
        "\\.hg"@,
        "\\.DS_Store"@,
        "node_modules"@,
        "target"@,
        "build"@,
        "dist"@,
        "\\.vscode"@,
        "\\.idea"@,
        "\\.vs"@,
        "package-lock\\.json"@,
        "\\.lock"@,
    ]
}

/// Builds the built-in exclusion list.
pub fn builtin_excludes() -> (r: Vec<String>)
    ensures
        string_views(r@) == builtin_exclude_patterns(),
{
    let mut r: Vec<String> = Vec::new();
    r.push(String::from_str("\\.git"));
    r.push(String::from_str("\\.svn"));
    r.push(String::from_str("\\.hg"));
    r.push(String::from_str("\\.DS_Store"));
    r.push(String::from_str("node_modules"));
    r.push(String::from_str("target"));
    r.push(String::from_str("build"));
    r.push(String::from_str("dist"));
    r.push(String::from_str("\\.vscode"));
    r.push(String::from_str("\\.idea"));
    r.push(String::from_str("\\.vs"));
    r.push(String::from_str("package-lock\\.json"));
    r.push(String::from_str("\\.lock"));
    proof {
        assert(string_views(r@) =~= builtin_exclude_patterns());
    }
    r
}

/// The caller's patterns followed by the built-in ones: the effective
/// exclusion rule set of one discovery pass.
pub open spec fn all_patterns(user: Seq<Seq<char>>) -> Seq<Seq<char>> {
    user + builtin_exclude_patterns()
}

/// Finds a pattern in the list that the regex engine refuses, if any.
pub fn find_invalid_pattern(pats: &Vec<String>) -> (r: Option<String>)
    ensures
        match r {
            None => all_valid(string_views(pats@)),
            Some(p) => string_views(pats@).contains(p@) && !regex_valid(p@),
        },
{
    let mut i: usize = 0;
    while i < pats.len()
        invariant
            i <= pats@.len(),
            forall|k: int| 0 <= k < i ==> regex_valid(#[trigger] string_views(pats@)[k]),
        decreases pats@.len() - i,
    {
        if !check_pattern(pats[i].as_str()) {
            proof {
                assert(string_views(pats@)[i as int] == pats@[i as int]@);
            }
            return Some(pats[i].clone());
        }
        i = i + 1;
    }
    None
}

/// Decides whether any pattern in the list matches the text.
pub fn any_pattern_matches(pats: &Vec<String>, text: &str) -> (r: bool)
    requires
        all_valid(string_views(pats@)),
    ensures
        r == matches_any(string_views(pats@), text@),
{
    let mut i: usize = 0;
    while i < pats.len()
        invariant
            i <= pats@.len(),
            all_valid(string_views(pats@)),
            forall|k: int| 0 <= k < i ==> !regex_match(#[trigger] string_views(pats@)[k], text@),
        decreases pats@.len() - i,
    {
        proof {
            assert(string_views(pats@)[i as int] == pats@[i as int]@);
        }
        if pattern_matches(pats[i].as_str(), text) {
            return true;
        }
        i = i + 1;
    }
    false
}

/// Extensions treated as binary without reading the file: images,
/// audio and video, archives, office documents, and compiled objects.
pub open spec fn is_binary_ext(e: Seq<char>) -> bool {
    ||| e == "exe"@
    ||| e == "dll"@
    ||| e == "so"@
    ||| e == "dylib"@
    ||| e == "bin"@
    ||| e == "obj"@
    ||| e == "o"@
    ||| e == "a"@
    ||| e == "lib"@
    ||| e == "pyc"@
    ||| e == "pyd"@
    ||| e == "pyo"@
    ||| e == "jpg"@
    ||| e == "jpeg"@
    ||| e == "png"@
    ||| e == "gif"@
    ||| e == "bmp"@
    ||| e == "tiff"@
    ||| e == "ico"@
    ||| e == "mp3"@
    ||| e == "mp4"@
    ||| e == "avi"@
    ||| e == "mov"@
    ||| e == "wmv"@
    ||| e == "flv"@
    ||| e == "zip"@
    ||| e == "tar"@
    ||| e == "gz"@
    ||| e == "rar"@
    ||| e == "7z"@
    ||| e == "pdf"@
    ||| e == "doc"@
    ||| e == "docx"@
    ||| e == "xls"@
    ||| e == "xlsx"@
    ||| e == "ppt"@
    ||| e == "pptx"@
}

/// Decides whether an extension is in the binary table.
pub fn binary_ext(e: &str) -> (r: bool)
    ensures
        r == is_binary_ext(e@),
{
    str_eq(e, "exe") || str_eq(e, "dll") || str_eq(e, "so") || str_eq(e, "dylib") || str_eq(
        e,
        "bin",
    ) || str_eq(e, "obj") || str_eq(e, "o") || str_eq(e, "a") || str_eq(e, "lib") || str_eq(
        e,
        "pyc",
    ) || str_eq(e, "pyd") || str_eq(e, "pyo") || str_eq(e, "jpg") || str_eq(e, "jpeg") || str_eq(
        e,
        "png",
    ) || str_eq(e, "gif") || str_eq(e, "bmp") || str_eq(e, "tiff") || str_eq(e, "ico") || str_eq(
        e,
        "mp3",
    ) || str_eq(e, "mp4") || str_eq(e, "avi") || str_eq(e, "mov") || str_eq(e, "wmv") || str_eq(
        e,
        "flv",
    ) || str_eq(e, "zip") || str_eq(e, "tar") || str_eq(e, "gz") || str_eq(e, "rar") || str_eq(
        e,
        "7z",
    ) || str_eq(e, "pdf") || str_eq(e, "doc") || str_eq(e, "docx") || str_eq(e, "xls") || str_eq(
        e,
        "xlsx",
    ) || str_eq(e, "ppt") || str_eq(e, "pptx")
}

/// Decides whether the byte slice holds a zero byte, the marker of
/// binary content.
pub fn has_zero_byte(b: &[u8]) -> (r: bool)
    ensures
        r == b@.contains(0u8),
{
    let mut i: usize = 0;
    while i < b.len()
        invariant
            i <= b@.len(),
            forall|k: int| 0 <= k < i ==> b@[k] != 0u8,
        decreases b@.len() - i,
    {
        if b[i] == 0 {
            return true;
        }
        i = i + 1;
    }
    false
}

} // verus!
