//! File discovery: entries handed over from a walk of the project tree
//! are filtered by the exclusion rules, by binary-content judgment and
//! by the extension allowlist, and the surviving paths are returned in
//! a deterministic order.

use vstd::prelude::*;
use crate::filter::{
    all_patterns, all_valid, any_pattern_matches, binary_ext, builtin_excludes,
    find_invalid_pattern, has_zero_byte, is_binary_ext, matches_any, string_views,
};
use crate::order::{lemma_sort_paths_ensures, sort_paths, sort_paths_spec};
use crate::strings::{extension, extension_of, file_name, file_name_of, s_len};

verus! {

/// One filesystem entry produced by the walk: its path, whether it is a
/// regular file, and the first bytes of its content (up to 1024), or
/// nothing when they could not be read.
pub struct WalkEntry {
    pub path: String,
    pub is_file: bool,
    pub prefix: Option<Vec<u8>>,
}

/// A file name starting with a dot: skipped, as the walk skips hidden
/// entries.
pub open spec fn hidden_name(f: Seq<char>) -> bool {
    f.len() > 0 && f[0] == '.'
}

/// The entry is judged binary: its extension is in the binary table, or
/// its leading bytes contain a zero byte.
pub open spec fn entry_binary(e: WalkEntry) -> bool {
    ||| (extension_of(e.path@) is Some && is_binary_ext(extension_of(e.path@)->0))
    ||| (e.prefix is Some && e.prefix->0@.contains(0u8))
}

/// The allowlist admits the entry's extension: an empty allowlist admits
/// everything, otherwise the extension must be listed.
pub open spec fn ext_allowed(exts: Seq<Seq<char>>, p: Seq<char>) -> bool {
    exts.len() == 0 || (extension_of(p) is Some && exts.contains(extension_of(p)->0))
}

/// The discovery filter admits the entry: a readable regular file, not
/// hidden, matching no exclusion pattern, not binary, with an admitted
/// extension.
pub open spec fn entry_admitted(e: WalkEntry, pats: Seq<Seq<char>>, exts: Seq<Seq<char>>) -> bool {
    &&& e.is_file
    &&& !hidden_name(file_name_of(e.path@))
    &&& !matches_any(pats, e.path@)
    &&& e.prefix is Some
    &&& !entry_binary(e)
    &&& ext_allowed(exts, e.path@)
}

/// The paths of the admitted entries, in walk order.
pub open spec fn filtered_paths(
    entries: Seq<WalkEntry>,
    pats: Seq<Seq<char>>,
    exts: Seq<Seq<char>>,
) -> Seq<String>
    decreases entries.len(),
{
    if entries.len() == 0 {
        Seq::empty()
    } else {
        let rest = filtered_paths(entries.skip(1), pats, exts);
        if entry_admitted(entries[0], pats, exts) {
            seq![entries[0].path] + rest
        } else {
            rest
        }
    }
}

/// What discovery returns on success: the admitted paths, sorted by the
/// full path string.
pub open spec fn spec_gather(
    entries: Seq<WalkEntry>,
    user_pats: Seq<Seq<char>>,
    exts: Seq<Seq<char>>,
) -> Seq<String> {
    sort_paths_spec(filtered_paths(entries, all_patterns(user_pats), exts))
}

/// An exclusion pattern the regex engine refuses: a fatal configuration
/// error of one discovery pass.
#[derive(Debug)]
pub struct PatternError {
    pub pattern: String,
}

fn is_hidden_name(f: &str) -> (r: bool)
    ensures
        r == hidden_name(f@),
{
    if s_len(f) == 0 {
        false
    } else {
        f.get_char(0) == '.'
    }
}

fn ext_allowed_exec(exts: &Vec<String>, p: &str) -> (r: bool)
    ensures
        r == ext_allowed(string_views(exts@), p@),
{
    if exts.len() == 0 {
        return true;
    }
    match extension(p) {
        None => false,
        Some(e) => {
            let mut i: usize = 0;
            while i < exts.len()
                invariant
                    i <= exts@.len(),
                    extension_of(p@) is Some,
                    e@ == extension_of(p@)->0,
                    forall|k: int| 0 <= k < i ==> #[trigger] string_views(exts@)[k] != e@,
                decreases exts@.len() - i,
            {
                if crate::strings::str_eq(exts[i].as_str(), e.as_str()) {
                    proof {
                        assert(string_views(exts@)[i as int] == e@);
                    }
                    return true;
                }
                proof {
                    assert(string_views(exts@)[i as int] == exts@[i as int]@);
                }
                i = i + 1;
            }
            proof {
                if string_views(exts@).contains(extension_of(p@)->0) {
                    let k = choose|k: int|
                        0 <= k < string_views(exts@).len() && string_views(exts@)[k]
                            == extension_of(p@)->0;
                    assert(string_views(exts@)[k] != e@);
                }
            }
            false
        },
    }
}

fn entry_admitted_exec(e: &WalkEntry, pats: &Vec<String>, exts: &Vec<String>) -> (r: bool)
    requires
        all_valid(string_views(pats@)),
    ensures
        r == entry_admitted(*e, string_views(pats@), string_views(exts@)),
{
    if !e.is_file {
        return false;
    }
    let name = file_name(e.path.as_str());
    if is_hidden_name(name.as_str()) {
        return false;
    }
    if any_pattern_matches(pats, e.path.as_str()) {
        return false;
    }
    let prefix_clean = match &e.prefix {
        Some(p) => !has_zero_byte(p.as_slice()),
        None => {
            return false;
        },
    };
    if !prefix_clean {
        return false;
    }
    let ext_binary = match extension(e.path.as_str()) {
        Some(x) => binary_ext(x.as_str()),
        None => false,
    };
    if ext_binary {
        return false;
    }
    ext_allowed_exec(exts, e.path.as_str())
}

/// Walks the handed-over entries, drops everything the filter refuses,
/// and returns the remaining paths sorted by full path. Fails exactly
/// when one of the exclusion patterns, caller-supplied or built-in, is
/// refused by the regex engine.
pub fn gather_relevant_files(
    entries: Vec<WalkEntry>,
    extensions: Vec<String>,
    excludes: Vec<String>,
) -> (r: Result<Vec<String>, PatternError>)
    ensures
        match r {
            Ok(paths) => all_valid(all_patterns(string_views(excludes@))) && paths@ == spec_gather(
                entries@,
                string_views(excludes@),
                string_views(extensions@),
            ),
            Err(e) => !all_valid(all_patterns(string_views(excludes@))) && all_patterns(
                string_views(excludes@),
            ).contains(e.pattern@) && !crate::filter::regex_valid(e.pattern@),
        },
{
    let ghost user_views = string_views(excludes@);
    let mut combined = excludes;
    let mut builtins = builtin_excludes();
    combined.append(&mut builtins);
    proof {
        assert(string_views(combined@) =~= all_patterns(user_views));
    }
    if let Some(p) = find_invalid_pattern(&combined) {
        return Err(PatternError { pattern: p });
    }
    let mut kept: Vec<String> = Vec::new();
    let mut i: usize = 0;
    proof {
        assert(entries@.skip(0) =~= entries@);
    }
    while i < entries.len()
        invariant
            i <= entries@.len(),
            all_valid(string_views(combined@)),
            string_views(combined@) == all_patterns(user_views),
            kept@ + filtered_paths(entries@.skip(i as int), all_patterns(user_views),
                string_views(extensions@),
            ) == filtered_paths(entries@, all_patterns(user_views), string_views(extensions@)),
        decreases entries@.len() - i,
    {
        let admitted = entry_admitted_exec(&entries[i], &combined, &extensions);
        proof {
            assert(entries@.skip(i as int)[0] == entries@[i as int]);
            assert(entries@.skip(i as int).skip(1) =~= entries@.skip(i + 1));
        }
        if admitted {
            kept.push(entries[i].path.clone());
            proof {
                assert(kept@ + filtered_paths(entries@.skip(i + 1), all_patterns(user_views),
                    string_views(extensions@),
                ) =~= filtered_paths(entries@, all_patterns(user_views),
                    string_views(extensions@),
                ));
            }
        }
        i = i + 1;
    }
    proof {
        assert(filtered_paths(entries@.skip(entries@.len() as int), all_patterns(user_views),
            string_views(extensions@),
        ) =~= Seq::<String>::empty());
        assert(kept@ =~= filtered_paths(entries@, all_patterns(user_views),
            string_views(extensions@),
        ));
    }
    Ok(sort_paths(kept))
}

/// Each path of `filtered_paths` is the path of an admitted entry, and
/// each admitted entry's path is listed.
proof fn lemma_filtered_paths_contains(
    entries: Seq<WalkEntry>,
    pats: Seq<Seq<char>>,
    exts: Seq<Seq<char>>,
)
    ensures
        forall|p: String| #[trigger]
            filtered_paths(entries, pats, exts).contains(p) <==> exists|i: int|
                0 <= i < entries.len() && #[trigger] entry_admitted(entries[i], pats, exts)
                    && entries[i].path == p,
    decreases entries.len(),
{
    if entries.len() == 0 {
    } else {
        lemma_filtered_paths_contains(entries.skip(1), pats, exts);
        let rest = filtered_paths(entries.skip(1), pats, exts);
        let whole = filtered_paths(entries, pats, exts);
        assert forall|p: String| #[trigger] whole.contains(p) implies exists|i: int|
            0 <= i < entries.len() && #[trigger] entry_admitted(entries[i], pats, exts)
                && entries[i].path == p by {
            let k = choose|k: int| 0 <= k < whole.len() && whole[k] == p;
            if entry_admitted(entries[0], pats, exts) && k == 0 {
                assert(entry_admitted(entries[0], pats, exts) && entries[0].path == p);
            } else {
                assert(rest.contains(p)) by {
                    if entry_admitted(entries[0], pats, exts) {
                        assert(rest[k - 1] == p);
                    } else {
                        assert(rest[k] == p);
                    }
                }
                let i = choose|i: int|
                    0 <= i < entries.skip(1).len() && #[trigger] entry_admitted(
                        entries.skip(1)[i],
                        pats,
                        exts,
                    ) && entries.skip(1)[i].path == p;
                assert(entries.skip(1)[i] == entries[i + 1]);
                assert(entry_admitted(entries[i + 1], pats, exts) && entries[i + 1].path == p);
            }
        }
        assert forall|p: String|
            exists|i: int|
                0 <= i < entries.len() && #[trigger] entry_admitted(entries[i], pats, exts)
                    && entries[i].path == p implies #[trigger] whole.contains(p) by {
            let i = choose|i: int|
                0 <= i < entries.len() && #[trigger] entry_admitted(entries[i], pats, exts)
                    && entries[i].path == p;
            if i == 0 {
                assert(whole[0] == p);
            } else {
                assert(entries.skip(1)[i - 1] == entries[i]);
                assert(rest.contains(p));
                let k = choose|k: int| 0 <= k < rest.len() && rest[k] == p;
                if entry_admitted(entries[0], pats, exts) {
                    assert(whole[k + 1] == p);
                } else {
                    assert(whole[k] == p);
                }
            }
        }
    }
}

/// A path in the discovery output always belongs to an entry that the
/// filter admitted.
pub proof fn lemma_gather_output_admitted(
    entries: Seq<WalkEntry>,
    user_pats: Seq<Seq<char>>,
    exts: Seq<Seq<char>>,
    p: String,
)
    requires
        spec_gather(entries, user_pats, exts).contains(p),
    ensures
        exists|i: int|
            0 <= i < entries.len() && #[trigger] entry_admitted(
                entries[i],
                all_patterns(user_pats),
                exts,
            ) && entries[i].path == p,
{
    lemma_sort_paths_ensures(filtered_paths(entries, all_patterns(user_pats), exts));
    lemma_filtered_paths_contains(entries, all_patterns(user_pats), exts);
}

/// A file whose path matches an exclusion pattern, caller-supplied or
/// built-in, never appears in the discovery output, whatever the
/// extension allowlist says.
pub proof fn lemma_excluded_never_listed(
    entries: Seq<WalkEntry>,
    user_pats: Seq<Seq<char>>,
    exts: Seq<Seq<char>>,
    p: String,
)
    requires
        matches_any(all_patterns(user_pats), p@),
    ensures
        !spec_gather(entries, user_pats, exts).contains(p),
{
    if spec_gather(entries, user_pats, exts).contains(p) {
        lemma_gather_output_admitted(entries, user_pats, exts, p);
    }
}

/// No two entries name the same path.
pub open spec fn paths_distinct(entries: Seq<WalkEntry>) -> bool {
    forall|i: int, j: int|
        0 <= i < j < entries.len() ==> #[trigger] entries[i].path@ != #[trigger] entries[j].path@
}

/// A file judged binary, by its extension or by a zero byte among its
/// first bytes, never appears in the discovery output, even when the
/// extension allowlist would admit it; nor does a file whose content
/// could not be read.
pub proof fn lemma_binary_never_listed(
    entries: Seq<WalkEntry>,
    user_pats: Seq<Seq<char>>,
    exts: Seq<Seq<char>>,
    i: int,
)
    requires
        0 <= i < entries.len(),
        paths_distinct(entries),
        entry_binary(entries[i]) || entries[i].prefix is None,
    ensures
        !spec_gather(entries, user_pats, exts).contains(entries[i].path),
{
    if spec_gather(entries, user_pats, exts).contains(entries[i].path) {
        lemma_gather_output_admitted(entries, user_pats, exts, entries[i].path);
        let j = choose|j: int|
            0 <= j < entries.len() && #[trigger] entry_admitted(
                entries[j],
                all_patterns(user_pats),
                exts,
            ) && entries[j].path == entries[i].path;
        assert(j == i);
    }
}

} // verus!
