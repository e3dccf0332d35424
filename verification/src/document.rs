//! Content aggregation: the files handed over by a read of the
//! discovered paths are ordered by file name, deduplicated by a hash of
//! their textual content, classified by extension, and assembled into
//! one document of categorized sections.

use vstd::prelude::*;
use crate::strings::{
    contains_seq, dec_chars, file_name_of, lex_le, lemma_lex_le_total, lemma_lex_le_trans, lower,
    push_char, str_contains, str_eq, str_le, to_lower_str, trim_end, trim_end_len, u64_to_dec,
};

verus! {

/// One file to aggregate: its path, its textual content (or nothing
/// when it could not be read as text), its size in bytes, and its last
/// modification time in seconds since the epoch.
pub struct FileInput {
    pub path: String,
    pub content: Option<String>,
    pub size: u64,
    pub modified: u64,
}

/// The classification bucket of a file, derived from its extension.
#[derive(Clone, Copy, Debug, PartialEq, Eq, Structural)]
pub enum Category {
    Configuration,
    Documentation,
    Source,
    Test,
}

/// The lowercased extension of a path, or the empty string when the
/// path has none.
pub open spec fn lower_ext(p: Seq<char>) -> Seq<char> {
    if crate::strings::extension_of(p) is Some {
        lower(crate::strings::extension_of(p)->0)
    } else {
        Seq::empty()
    }
}

/// The fixed categorization table: configuration and documentation
/// extensions, this language's source extension, extensions naming
/// tests, and everything else as source.
pub open spec fn category_of(p: Seq<char>) -> Category {
    let e = lower_ext(p);
    if e == "toml"@ || e == "json"@ || e == "yaml"@ || e == "yml"@ {
        Category::Configuration
    } else if e == "rs"@ {
        Category::Source
    } else if e == "md"@ || e == "txt"@ {
        Category::Documentation
    } else if contains_seq(e, "test"@) {
        Category::Test
    } else {
        Category::Source
    }
}

/// Classifies a path by its lowercased extension.
pub fn categorize(p: &str) -> (r: Category)
    ensures
        r == category_of(p@),
{
    let e = match crate::strings::extension(p) {
        Some(x) => to_lower_str(x.as_str()),
        None => String::new(),
    };
    let es = e.as_str();
    if str_eq(es, "toml") || str_eq(es, "json") || str_eq(es, "yaml") || str_eq(es, "yml") {
        Category::Configuration
    } else if str_eq(es, "rs") {
        Category::Source
    } else if str_eq(es, "md") || str_eq(es, "txt") {
        Category::Documentation
    } else if str_contains(es, "test") {
        Category::Test
    } else {
        Category::Source
    }
}

/// The offset basis of the content hash.
pub const HASH_OFFSET: u64 = 0xcbf2_9ce4_8422_2325;

/// The multiplier of the content hash.
pub const HASH_PRIME: u64 = 0x0000_0100_0000_01b3;

/// One step of the content hash: fold a character into the state.
pub open spec fn hash_step(h: u64, c: char) -> u64 {
    (h ^ ((c as u32) as u64)).wrapping_mul(HASH_PRIME)
}

/// The content hash of a character sequence: an FNV-1a fold over the
/// code points, used only to detect duplicate content within one run.
pub open spec fn content_hash(s: Seq<char>) -> u64
    decreases s.len(),
{
    if s.len() == 0 {
        HASH_OFFSET
    } else {
        hash_step(content_hash(s.drop_last()), s.last())
    }
}

/// Computes the content hash of a text.
pub fn calculate_hash(content: &str) -> (r: u64)
    ensures
        r == content_hash(content@),
{
    let n = content.unicode_len();
    let mut h: u64 = HASH_OFFSET;
    let mut i: usize = 0;
    proof {
        assert(content@.subrange(0, 0) =~= Seq::<char>::empty());
    }
    while i < n
        invariant
            i <= n,
            n == content@.len(),
            h == content_hash(content@.subrange(0, i as int)),
        decreases n - i,
    {
        let c = content.get_char(i);
        h = (h ^ ((c as u32) as u64)).wrapping_mul(HASH_PRIME);
        proof {
            assert(content@.subrange(0, i + 1).drop_last() =~= content@.subrange(0, i as int));
            assert(content@.subrange(0, i + 1).last() == content@[i as int]);
        }
        i = i + 1;
    }
    proof {
        assert(content@.subrange(0, n as int) =~= content@);
    }
    h
}

/// The sort key of aggregation: the file name, not the full path.
pub open spec fn name_of(f: FileInput) -> Seq<char> {
    file_name_of(f.path@)
}

/// `x` placed into `s` before the trailing run of files whose names do
/// not compare `lex_le` to its name; on a sorted `s` this keeps the
/// order and puts `x` after files of equal name.
pub open spec fn insert_file(s: Seq<FileInput>, x: FileInput) -> Seq<FileInput>
    decreases s.len(),
{
    if s.len() == 0 {
        seq![x]
    } else if lex_le(name_of(s.last()), name_of(x)) {
        s.push(x)
    } else {
        insert_file(s.drop_last(), x).push(s.last())
    }
}

/// Insertion sort of files by `lex_le` of the file name.
pub open spec fn sort_files_spec(s: Seq<FileInput>) -> Seq<FileInput>
    decreases s.len(),
{
    if s.len() == 0 {
        s
    } else {
        insert_file(sort_files_spec(s.drop_last()), s.last())
    }
}

/// Every pair of positions is ordered by `lex_le` of the file name.
pub open spec fn files_sorted(s: Seq<FileInput>) -> bool {
    forall|i: int, j: int|
        0 <= i < j < s.len() ==> lex_le(name_of(#[trigger] s[i]), name_of(#[trigger] s[j]))
}

/// `insert_file` adds exactly `x` to the elements of `s`.
pub proof fn lemma_insert_file_contains(s: Seq<FileInput>, x: FileInput)
    ensures
        insert_file(s, x).len() == s.len() + 1,
        forall|y: FileInput| #[trigger] insert_file(s, x).contains(y) <==> (s.contains(y) || y
            == x),
    decreases s.len(),
{
    if s.len() == 0 {
        assert forall|y: FileInput| #[trigger] insert_file(s, x).contains(y) implies (s.contains(y)
            || y == x) by {
            assert(insert_file(s, x) =~= seq![x]);
        }
        assert(insert_file(s, x).contains(x)) by {
            assert(insert_file(s, x)[0] == x);
        }
    } else if lex_le(name_of(s.last()), name_of(x)) {
        assert forall|y: FileInput| #[trigger] s.push(x).contains(y) implies (s.contains(y) || y
            == x) by {
            let i = choose|i: int| 0 <= i < s.push(x).len() && s.push(x)[i] == y;
            if i < s.len() {
                assert(s[i] == y);
            }
        }
        assert forall|y: FileInput| s.contains(y) || y == x implies #[trigger] s.push(x).contains(
            y,
        ) by {
            if y == x {
                assert(s.push(x)[s.len() as int] == x);
            } else {
                let i = choose|i: int| 0 <= i < s.len() && s[i] == y;
                assert(s.push(x)[i] == y);
            }
        }
    } else {
        lemma_insert_file_contains(s.drop_last(), x);
        let t = insert_file(s.drop_last(), x);
        assert forall|y: FileInput| #[trigger] t.push(s.last()).contains(y) implies (s.contains(y)
            || y == x) by {
            let i = choose|i: int| 0 <= i < t.push(s.last()).len() && t.push(s.last())[i] == y;
            if i < t.len() {
                assert(t[i] == y);
                assert(t.contains(y));
                if s.drop_last().contains(y) {
                    let k = choose|k: int| 0 <= k < s.drop_last().len() && s.drop_last()[k] == y;
                    assert(s[k] == y);
                }
            } else {
                assert(s[s.len() - 1] == y);
            }
        }
        assert forall|y: FileInput| s.contains(y) || y == x implies #[trigger] t.push(
            s.last(),
        ).contains(y) by {
            if y == x {
                assert(t.contains(y));
                let k = choose|k: int| 0 <= k < t.len() && t[k] == y;
                assert(t.push(s.last())[k] == y);
            } else {
                let i = choose|i: int| 0 <= i < s.len() && s[i] == y;
                if i < s.len() - 1 {
                    assert(s.drop_last()[i] == y);
                    assert(t.contains(y));
                    let k = choose|k: int| 0 <= k < t.len() && t[k] == y;
                    assert(t.push(s.last())[k] == y);
                } else {
                    assert(t.push(s.last()).last() == y);
                }
            }
        }
    }
}

/// Inserting into a sorted sequence keeps it sorted.
pub proof fn lemma_insert_file_sorted(s: Seq<FileInput>, x: FileInput)
    requires
        files_sorted(s),
    ensures
        files_sorted(insert_file(s, x)),
    decreases s.len(),
{
    if s.len() == 0 {
    } else if lex_le(name_of(s.last()), name_of(x)) {
        assert forall|i: int, j: int|
            0 <= i < j < s.push(x).len() implies lex_le(
            name_of(#[trigger] s.push(x)[i]),
            name_of(#[trigger] s.push(x)[j]),
        ) by {
            if j == s.len() {
                if i < s.len() - 1 {
                    lemma_lex_le_trans(name_of(s[i]), name_of(s.last()), name_of(x));
                }
            }
        }
    } else {
        assert(files_sorted(s.drop_last())) by {
            assert forall|i: int, j: int|
                0 <= i < j < s.drop_last().len() implies lex_le(
                name_of(#[trigger] s.drop_last()[i]),
                name_of(#[trigger] s.drop_last()[j]),
            ) by {
                assert(s.drop_last()[i] == s[i]);
                assert(s.drop_last()[j] == s[j]);
            }
        }
        lemma_insert_file_sorted(s.drop_last(), x);
        lemma_insert_file_contains(s.drop_last(), x);
        let t = insert_file(s.drop_last(), x);
        assert forall|i: int, j: int|
            0 <= i < j < t.push(s.last()).len() implies lex_le(
            name_of(#[trigger] t.push(s.last())[i]),
            name_of(#[trigger] t.push(s.last())[j]),
        ) by {
            if j == t.len() {
                assert(t.contains(t[i]));
                if t[i] == x {
                    lemma_lex_le_total(name_of(s.last()), name_of(x));
                } else {
                    assert(s.drop_last().contains(t[i]));
                    let k = choose|k: int|
                        0 <= k < s.drop_last().len() && s.drop_last()[k] == t[i];
                    assert(s[k] == t[i]);
                    assert(lex_le(name_of(s[k]), name_of(s[s.len() - 1])));
                }
            }
        }
    }
}

/// The sort is a reordering: it keeps exactly the elements of its input.
pub proof fn lemma_sort_files_ensures(s: Seq<FileInput>)
    ensures
        files_sorted(sort_files_spec(s)),
        sort_files_spec(s).len() == s.len(),
        forall|y: FileInput| #[trigger] sort_files_spec(s).contains(y) <==> s.contains(y),
    decreases s.len(),
{
    if s.len() == 0 {
    } else {
        lemma_sort_files_ensures(s.drop_last());
        lemma_insert_file_sorted(sort_files_spec(s.drop_last()), s.last());
        lemma_insert_file_contains(sort_files_spec(s.drop_last()), s.last());
        assert forall|y: FileInput| #[trigger] sort_files_spec(s).contains(y) implies s.contains(
            y,
        ) by {
            if sort_files_spec(s.drop_last()).contains(y) {
                let k = choose|k: int| 0 <= k < s.drop_last().len() && s.drop_last()[k] == y;
                assert(s[k] == y);
            } else {
                assert(s[s.len() - 1] == y);
            }
        }
        assert forall|y: FileInput| s.contains(y) implies #[trigger] sort_files_spec(s).contains(
            y,
        ) by {
            let i = choose|i: int| 0 <= i < s.len() && s[i] == y;
            if i < s.len() - 1 {
                assert(s.drop_last()[i] == y);
            }
        }
    }
}

/// Where the scan of the exec insertion stops, the spec insertion puts
/// `x`.
proof fn lemma_insert_file_at(s: Seq<FileInput>, x: FileInput, j: int)
    requires
        0 <= j <= s.len(),
        forall|k: int| j <= k < s.len() ==> !lex_le(name_of(#[trigger] s[k]), name_of(x)),
        j > 0 ==> lex_le(name_of(s[j - 1]), name_of(x)),
    ensures
        insert_file(s, x) == s.subrange(0, j).push(x) + s.subrange(j, s.len() as int),
    decreases s.len(),
{
    if s.len() == 0 {
        assert(insert_file(s, x) =~= s.subrange(0, j).push(x) + s.subrange(j, s.len() as int));
    } else if lex_le(name_of(s.last()), name_of(x)) {
        assert(j == s.len());
        assert(s.subrange(0, j) =~= s);
        assert(insert_file(s, x) =~= s.subrange(0, j).push(x) + s.subrange(j, s.len() as int));
    } else {
        assert(j < s.len());
        assert forall|k: int| j <= k < s.drop_last().len() implies !lex_le(
            name_of(#[trigger] s.drop_last()[k]),
            name_of(x),
        ) by {
            assert(s.drop_last()[k] == s[k]);
        }
        if j > 0 {
            assert(s.drop_last()[j - 1] == s[j - 1]);
        }
        lemma_insert_file_at(s.drop_last(), x, j);
        assert(s.drop_last().subrange(0, j) =~= s.subrange(0, j));
        assert(insert_file(s, x) =~= s.subrange(0, j).push(x) + s.subrange(j, s.len() as int));
    }
}

fn file_name_le(a: &FileInput, b: &FileInput) -> (r: bool)
    ensures
        r == lex_le(name_of(*a), name_of(*b)),
{
    let na = crate::strings::file_name(a.path.as_str());
    let nb = crate::strings::file_name(b.path.as_str());
    str_le(na.as_str(), nb.as_str())
}

fn file_shift_here(r: &Vec<FileInput>, j: usize, x: &FileInput) -> (b: bool)
    requires
        j <= r@.len(),
    ensures
        b == (j > 0 && !lex_le(name_of(r@[j - 1]), name_of(*x))),
{
    if j == 0 {
        false
    } else {
        !file_name_le(&r[j - 1], x)
    }
}

/// Sorts files by `lex_le` of the file name, keeping the prior order of
/// files whose names tie.
pub fn sort_files(v: Vec<FileInput>) -> (r: Vec<FileInput>)
    ensures
        r@ == sort_files_spec(v@),
{
    let mut r: Vec<FileInput> = Vec::new();
    proof {
        assert(v@.subrange(0, 0) =~= Seq::<FileInput>::empty());
    }
    let ghost whole = v@;
    let mut i: usize = 0;
    while i < v.len()
        invariant
            i <= whole.len(),
            v@ == whole,
            r@ == sort_files_spec(whole.subrange(0, i as int)),
        decreases whole.len() - i,
    {
        let x = FileInput {
            path: v[i].path.clone(),
            content: match &v[i].content {
                Some(c) => Some(c.clone()),
                None => None,
            },
            size: v[i].size,
            modified: v[i].modified,
        };
        proof {
            assert(x == whole[i as int]);
        }
        let ghost r_old = r@;
        let mut j = r.len();
        while file_shift_here(&r, j, &x)
            invariant
                j <= r@.len(),
                r@ == r_old,
                forall|k: int| j <= k < r@.len() ==> !lex_le(name_of(#[trigger] r@[k]), name_of(x)),
            decreases j,
        {
            j = j - 1;
        }
        proof {
            lemma_insert_file_at(r@, x, j as int);
        }
        r.insert(j, x);
        proof {
            assert(r@ =~= r_old.subrange(0, j as int).push(x) + r_old.subrange(
                j as int,
                r_old.len() as int,
            ));
            assert(whole.subrange(0, i + 1).drop_last() =~= whole.subrange(0, i as int));
            assert(whole.subrange(0, i + 1).last() == whole[i as int]);
        }
        i = i + 1;
    }
    proof {
        assert(whole.subrange(0, whole.len() as int) =~= whole);
    }
    r
}

/// The content hash of a file; meaningful only when the file has
/// readable content.
pub open spec fn file_hash(f: FileInput) -> u64 {
    content_hash(f.content->0@)
}

/// The files kept by one pass of deduplication: unreadable files are
/// dropped, a file whose content hash was already seen is dropped, and
/// every other file is kept and marks its hash as seen.
pub open spec fn dedup_accept(files: Seq<FileInput>, seen: Set<u64>) -> Seq<FileInput>
    decreases files.len(),
{
    if files.len() == 0 {
        Seq::empty()
    } else {
        let f = files[0];
        let rest = files.skip(1);
        if f.content is None {
            dedup_accept(rest, seen)
        } else if seen.contains(file_hash(f)) {
            dedup_accept(rest, seen)
        } else {
            seq![f] + dedup_accept(rest, seen.insert(file_hash(f)))
        }
    }
}

/// The files one aggregation run includes: the input sorted by file
/// name, then deduplicated by content hash with nothing seen at first.
pub open spec fn spec_included(files: Seq<FileInput>) -> Seq<FileInput> {
    dedup_accept(sort_files_spec(files), Set::empty())
}

/// The paths of the included files, in the order they were accepted.
pub open spec fn included_paths(files: Seq<FileInput>) -> Seq<String> {
    spec_included(files).map_values(|f: FileInput| f.path)
}

/// The per-file header: a separator, the quoted path, optionally size
/// and modification time, and a closing separator.
pub open spec fn file_header(f: FileInput, meta: bool) -> Seq<char> {
    if meta {
        "========================================\nFile: \""@ + f.path@ + "\"\nSize: "@
            + dec_chars(f.size as nat) + " bytes\nLast Modified: "@ + dec_chars(
            f.modified as nat,
        ) + "\n========================================\n"@
    } else {
        "========================================\nFile: \""@ + f.path@
            + "\"\n========================================\n"@
    }
}

/// The text one included file contributes: its header, its content with
/// trailing whitespace removed, and a newline.
pub open spec fn file_block(f: FileInput, meta: bool) -> Seq<char> {
    file_header(f, meta) + trim_end(f.content->0@) + seq!['\n']
}

/// The concatenated blocks of the included files of one category, in
/// acceptance order.
pub open spec fn cat_buffer(acc: Seq<FileInput>, cat: Category, meta: bool) -> Seq<char>
    decreases acc.len(),
{
    if acc.len() == 0 {
        Seq::empty()
    } else {
        (if category_of(acc[0].path@) == cat {
            file_block(acc[0], meta)
        } else {
            Seq::empty()
        }) + cat_buffer(acc.skip(1), cat, meta)
    }
}

/// The header line introducing a category's section.
pub open spec fn section_header(cat: Category) -> Seq<char> {
    match cat {
        Category::Configuration => "========================================\nSection: Configuration Files\n========================================\n"@,
        Category::Documentation => "========================================\nSection: Documentation\n========================================\n"@,
        Category::Source => "========================================\nSection: Source Files\n========================================\n"@,
        Category::Test => "========================================\nSection: Tests\n========================================\n"@,
    }
}

/// A category's section: nothing at all when the category has no
/// content, else its header followed by its blocks.
pub open spec fn section_text(acc: Seq<FileInput>, cat: Category, meta: bool) -> Seq<char> {
    if cat_buffer(acc, cat, meta).len() == 0 {
        Seq::empty()
    } else {
        section_header(cat) + cat_buffer(acc, cat, meta)
    }
}

/// The whole document over the included files: the four category
/// sections in their fixed order.
pub open spec fn render_document(acc: Seq<FileInput>, meta: bool) -> Seq<char> {
    section_text(acc, Category::Configuration, meta) + section_text(
        acc,
        Category::Documentation,
        meta,
    ) + section_text(acc, Category::Source, meta) + section_text(acc, Category::Test, meta)
}

/// What aggregation returns: the document assembled from the files it
/// includes.
pub open spec fn spec_document(files: Seq<FileInput>, meta: bool) -> Seq<char> {
    render_document(spec_included(files), meta)
}

/// Accepting one more file extends exactly the buffer of its category.
proof fn lemma_cat_buffer_push(acc: Seq<FileInput>, f: FileInput, cat: Category, meta: bool)
    ensures
        cat_buffer(acc.push(f), cat, meta) == cat_buffer(acc, cat, meta) + (if category_of(f.path@)
            == cat {
            file_block(f, meta)
        } else {
            Seq::empty()
        }),
    decreases acc.len(),
{
    if acc.len() == 0 {
        let tail = if category_of(f.path@) == cat {
            file_block(f, meta)
        } else {
            Seq::<char>::empty()
        };
        assert(acc.push(f)[0] == f);
        assert(acc.push(f).skip(1) =~= Seq::<FileInput>::empty());
        assert(cat_buffer(acc.push(f).skip(1), cat, meta) == cat_buffer(
            Seq::<FileInput>::empty(),
            cat,
            meta,
        ));
        assert(cat_buffer(Seq::<FileInput>::empty(), cat, meta) == Seq::<char>::empty());
        assert(cat_buffer(acc.push(f), cat, meta) == tail + Seq::<char>::empty());
        assert(cat_buffer(acc, cat, meta) == Seq::<char>::empty());
        assert(tail + Seq::<char>::empty() =~= Seq::<char>::empty() + tail);
    } else {
        assert(acc.push(f).skip(1) =~= acc.skip(1).push(f));
        lemma_cat_buffer_push(acc.skip(1), f, cat, meta);
        assert(acc.push(f)[0] == acc[0]);
        let head = if category_of(acc[0].path@) == cat {
            file_block(acc[0], meta)
        } else {
            Seq::<char>::empty()
        };
        let tail = if category_of(f.path@) == cat {
            file_block(f, meta)
        } else {
            Seq::<char>::empty()
        };
        assert(cat_buffer(acc.push(f), cat, meta) == head + cat_buffer(
            acc.push(f).skip(1),
            cat,
            meta,
        ));
        assert(cat_buffer(acc.push(f).skip(1), cat, meta) == cat_buffer(
            acc.skip(1).push(f),
            cat,
            meta,
        ));
        assert(cat_buffer(acc.skip(1).push(f), cat, meta) == cat_buffer(acc.skip(1), cat, meta)
            + tail);
        assert(cat_buffer(acc, cat, meta) == head + cat_buffer(acc.skip(1), cat, meta));
        assert(head + (cat_buffer(acc.skip(1), cat, meta) + tail) =~= (head + cat_buffer(
            acc.skip(1),
            cat,
            meta,
        )) + tail);
    }
}

fn contains_u64(v: &Vec<u64>, x: u64) -> (r: bool)
    ensures
        r == v@.contains(x),
{
    let mut i: usize = 0;
    while i < v.len()
        invariant
            i <= v@.len(),
            forall|k: int| 0 <= k < i ==> v@[k] != x,
        decreases v@.len() - i,
    {
        if v[i] == x {
            return true;
        }
        i = i + 1;
    }
    proof {
        if v@.contains(x) {
            let k = choose|k: int| 0 <= k < v@.len() && v@[k] == x;
            assert(v@[k] != x);
        }
    }
    false
}

fn render_block(f: &FileInput, c: &str, include_metadata: bool) -> (r: String)
    requires
        f.content is Some,
        c@ == f.content->0@,
    ensures
        r@ == file_block(*f, include_metadata),
{
    let mut r = String::from_str("========================================\nFile: \"");
    r.append(f.path.as_str());
    if include_metadata {
        r.append("\"\nSize: ");
        let sz = u64_to_dec(f.size);
        r.append(sz.as_str());
        r.append(" bytes\nLast Modified: ");
        let md = u64_to_dec(f.modified);
        r.append(md.as_str());
        r.append("\n========================================\n");
    } else {
        r.append("\"\n========================================\n");
    }
    let n = trim_end_len(c);
    r.append(c.substring_char(0, n));
    push_char(&mut r, '\n');
    proof {
        assert(r@ =~= file_block(*f, include_metadata));
    }
    r
}

/// Sorts the files by file name, drops unreadable files and files whose
/// content repeats one already taken, and assembles the document:
/// blocks grouped into the fixed category order, each nonempty category
/// introduced by its section header. Also returns the paths of the
/// included files, in acceptance order.
///
/// Deduplication is by content hash, not by path: byte-identical
/// content collapses to one copy even across unrelated subtrees, and
/// two distinct contents that collide under the 64-bit hash would
/// collapse the same way.
pub fn concatenate_files(files: Vec<FileInput>, include_metadata: bool) -> (r: (String, Vec<
    String,
>))
    ensures
        r.0@ == spec_document(files@, include_metadata),
        r.1@ == included_paths(files@),
{
    let ghost input = files@;
    let sorted = sort_files(files);
    let ghost sorted_seq = sorted@;
    let mut seen: Vec<u64> = Vec::new();
    let ghost mut seen_set = Set::<u64>::empty();
    let mut buf_cfg = String::new();
    let mut buf_doc = String::new();
    let mut buf_src = String::new();
    let mut buf_test = String::new();
    let mut filenames: Vec<String> = Vec::new();
    let ghost mut acc = Seq::<FileInput>::empty();
    let mut i: usize = 0;
    proof {
        assert(sorted_seq.skip(0) =~= sorted_seq);
        assert(dedup_accept(sorted_seq, Set::empty()) =~= acc + dedup_accept(
            sorted_seq.skip(0),
            seen_set,
        ));
        assert(filenames@ =~= acc.map_values(|f: FileInput| f.path));
    }
    while i < sorted.len()
        invariant
            i <= sorted_seq.len(),
            sorted@ == sorted_seq,
            dedup_accept(sorted_seq, Set::empty()) == acc + dedup_accept(
                sorted_seq.skip(i as int),
                seen_set,
            ),
            forall|h: u64| #[trigger] seen_set.contains(h) <==> seen@.contains(h),
            buf_cfg@ == cat_buffer(acc, Category::Configuration, include_metadata),
            buf_doc@ == cat_buffer(acc, Category::Documentation, include_metadata),
            buf_src@ == cat_buffer(acc, Category::Source, include_metadata),
            buf_test@ == cat_buffer(acc, Category::Test, include_metadata),
            filenames@ == acc.map_values(|f: FileInput| f.path),
        decreases sorted_seq.len() - i,
    {
        proof {
            assert(sorted_seq.skip(i as int)[0] == sorted_seq[i as int]);
            assert(sorted_seq.skip(i as int).skip(1) =~= sorted_seq.skip(i + 1));
        }
        match &sorted[i].content {
            None => {},
            Some(c) => {
                let h = calculate_hash(c.as_str());
                proof {
                    assert(h == file_hash(sorted_seq[i as int]));
                }
                if !contains_u64(&seen, h) {
                    let block = render_block(&sorted[i], c.as_str(), include_metadata);
                    let cat = categorize(sorted[i].path.as_str());
                    proof {
                        lemma_cat_buffer_push(
                            acc,
                            sorted_seq[i as int],
                            Category::Configuration,
                            include_metadata,
                        );
                        lemma_cat_buffer_push(
                            acc,
                            sorted_seq[i as int],
                            Category::Documentation,
                            include_metadata,
                        );
                        lemma_cat_buffer_push(
                            acc,
                            sorted_seq[i as int],
                            Category::Source,
                            include_metadata,
                        );
                        lemma_cat_buffer_push(
                            acc,
                            sorted_seq[i as int],
                            Category::Test,
                            include_metadata,
                        );
                    }
                    match cat {
                        Category::Configuration => buf_cfg.append(block.as_str()),
                        Category::Documentation => buf_doc.append(block.as_str()),
                        Category::Source => buf_src.append(block.as_str()),
                        Category::Test => buf_test.append(block.as_str()),
                    }
    let ghost old_vec = seen@;
                    let ghost old_set = seen_set;
                    seen.push(h);
                    filenames.push(sorted[i].path.clone());
                    proof {
                        seen_set = seen_set.insert(h);
                        assert forall|h2: u64| #[trigger] seen_set.contains(h2) implies
                            seen@.contains(h2) by {
                            if h2 == h {
                                assert(seen@[seen@.len() - 1] == h);
                            } else {
                                assert(old_set.contains(h2));
                                assert(old_vec.contains(h2));
                                let k = choose|k: int|
                                    0 <= k < old_vec.len() && old_vec[k] == h2;
                                assert(seen@[k] == h2);
                            }
                        }
                        assert forall|h2: u64| seen@.contains(h2) implies #[trigger]
                            seen_set.contains(h2) by {
                            let k = choose|k: int| 0 <= k < seen@.len() && seen@[k] == h2;
                            if k < seen@.len() - 1 {
                                assert(old_vec[k] == h2);
                                assert(old_set.contains(h2));
                            }
                        }
                        let ghost f = sorted_seq[i as int];
                        assert(acc + (seq![f] + dedup_accept(sorted_seq.skip(i + 1), seen_set))
                            =~= acc.push(f) + dedup_accept(sorted_seq.skip(i + 1), seen_set));
                        acc = acc.push(f);
                        assert(filenames@ =~= acc.map_values(|g: FileInput| g.path));
                    }
                }
            },
        }
        i = i + 1;
    }
    proof {
        assert(sorted_seq.skip(sorted_seq.len() as int) =~= Seq::<FileInput>::empty());
        assert(acc + dedup_accept(Seq::<FileInput>::empty(), seen_set) =~= acc);
        assert(acc == spec_included(input));
    }
    let mut doc = String::new();
    if !buf_cfg.as_str().is_empty() {
        doc.append("========================================\nSection: Configuration Files\n========================================\n");
        doc.append(buf_cfg.as_str());
    }
    if !buf_doc.as_str().is_empty() {
        doc.append("========================================\nSection: Documentation\n========================================\n");
        doc.append(buf_doc.as_str());
    }
    if !buf_src.as_str().is_empty() {
        doc.append("========================================\nSection: Source Files\n========================================\n");
        doc.append(buf_src.as_str());
    }
    if !buf_test.as_str().is_empty() {
        doc.append("========================================\nSection: Tests\n========================================\n");
        doc.append(buf_test.as_str());
    }
    proof {
        assert(doc@ =~= spec_document(input, include_metadata));
    }
    (doc, filenames)
}

/// What one pass of deduplication guarantees: kept files are readable
/// members of the input whose hashes were not yet seen, kept hashes are
/// pairwise distinct, and the hash of every readable input file not
/// already seen is represented among the kept files.
proof fn lemma_dedup_props(files: Seq<FileInput>, seen: Set<u64>)
    ensures
        forall|k: int|
            0 <= k < dedup_accept(files, seen).len() ==> ((#[trigger] dedup_accept(files, seen)[k]).content is Some
                && files.contains(dedup_accept(files, seen)[k]) && !seen.contains(
                file_hash(dedup_accept(files, seen)[k]),
            )),
        forall|k: int, l: int|
            0 <= k < l < dedup_accept(files, seen).len() ==> file_hash(
                #[trigger] dedup_accept(files, seen)[k],
            ) != file_hash(#[trigger] dedup_accept(files, seen)[l]),
        forall|i: int|
            0 <= i < files.len() && (#[trigger] files[i]).content is Some && !seen.contains(
                file_hash(files[i]),
            ) ==> exists|k: int|
                0 <= k < dedup_accept(files, seen).len() && file_hash(
                    #[trigger] dedup_accept(files, seen)[k],
                ) == file_hash(files[i]),
    decreases files.len(),
{
    if files.len() == 0 {
    } else {
        let f = files[0];
        let rest = files.skip(1);
        let r = dedup_accept(files, seen);
        if f.content is None || seen.contains(file_hash(f)) {
            lemma_dedup_props(rest, seen);
            assert(r == dedup_accept(rest, seen));
            assert forall|k: int| 0 <= k < r.len() implies ((#[trigger] r[k]).content is Some
                && files.contains(r[k]) && !seen.contains(file_hash(r[k]))) by {
                assert(rest.contains(r[k]));
                let j = choose|j: int| 0 <= j < rest.len() && rest[j] == r[k];
                assert(files[j + 1] == r[k]);
            }
            assert forall|i: int|
                0 <= i < files.len() && (#[trigger] files[i]).content is Some && !seen.contains(
                    file_hash(files[i]),
                ) implies exists|k: int|
                0 <= k < r.len() && file_hash(#[trigger] r[k]) == file_hash(files[i]) by {
                if i > 0 {
                    assert(rest[i - 1] == files[i]);
                    let k = choose|k: int|
                        0 <= k < dedup_accept(rest, seen).len() && file_hash(
                            #[trigger] dedup_accept(rest, seen)[k],
                        ) == file_hash(rest[i - 1]);
                    assert(file_hash(r[k]) == file_hash(files[i]));
                }
            }
        } else {
            let seen2 = seen.insert(file_hash(f));
            lemma_dedup_props(rest, seen2);
            let rr = dedup_accept(rest, seen2);
            assert(r == seq![f] + rr);
            assert(r[0] == f);
            assert forall|k: int| 0 <= k < r.len() implies ((#[trigger] r[k]).content is Some
                && files.contains(r[k]) && !seen.contains(file_hash(r[k]))) by {
                if k == 0 {
                    assert(files[0] == f);
                } else {
                    assert(r[k] == rr[k - 1]);
                    assert(rest.contains(rr[k - 1]));
                    let j = choose|j: int| 0 <= j < rest.len() && rest[j] == rr[k - 1];
                    assert(files[j + 1] == r[k]);
                    assert(!seen2.contains(file_hash(rr[k - 1])));
                }
            }
            assert forall|k: int, l: int| 0 <= k < l < r.len() implies file_hash(#[trigger] r[k])
                != file_hash(#[trigger] r[l]) by {
                if k == 0 {
                    assert(r[l] == rr[l - 1]);
                    assert(!seen2.contains(file_hash(rr[l - 1])));
                } else {
                    assert(r[k] == rr[k - 1]);
                    assert(r[l] == rr[l - 1]);
                }
            }
            assert forall|i: int|
                0 <= i < files.len() && (#[trigger] files[i]).content is Some && !seen.contains(
                    file_hash(files[i]),
                ) implies exists|k: int|
                0 <= k < r.len() && file_hash(#[trigger] r[k]) == file_hash(files[i]) by {
                if i == 0 {
                    assert(file_hash(r[0]) == file_hash(files[0]));
                } else if file_hash(files[i]) == file_hash(f) {
                    assert(file_hash(r[0]) == file_hash(files[i]));
                } else {
                    assert(rest[i - 1] == files[i]);
                    assert(!seen2.contains(file_hash(rest[i - 1])));
                    let k = choose|k: int|
                        0 <= k < rr.len() && file_hash(#[trigger] rr[k]) == file_hash(rest[i - 1]);
                    assert(r[k + 1] == rr[k]);
                    assert(file_hash(r[k + 1]) == file_hash(files[i]));
                }
            }
        }
    }
}

/// On a name-sorted input, every kept file's name compares `lex_le` to
/// the name of every readable input file of the same hash: the kept one
/// sorts first.
proof fn lemma_dedup_min_name(files: Seq<FileInput>, seen: Set<u64>)
    requires
        files_sorted(files),
    ensures
        forall|k: int, i: int|
            0 <= k < dedup_accept(files, seen).len() && 0 <= i < files.len() && (#[trigger]
            files[i]).content is Some && file_hash(#[trigger] dedup_accept(files, seen)[k])
                == file_hash(files[i]) ==> lex_le(
                name_of(dedup_accept(files, seen)[k]),
                name_of(files[i]),
            ),
    decreases files.len(),
{
    if files.len() == 0 {
    } else {
        let f = files[0];
        let rest = files.skip(1);
        let r = dedup_accept(files, seen);
        assert(files_sorted(rest)) by {
            assert forall|a: int, b: int|
                0 <= a < b < rest.len() implies lex_le(
                name_of(#[trigger] rest[a]),
                name_of(#[trigger] rest[b]),
            ) by {
                assert(rest[a] == files[a + 1]);
                assert(rest[b] == files[b + 1]);
            }
        }
        if f.content is None || seen.contains(file_hash(f)) {
            lemma_dedup_min_name(rest, seen);
            lemma_dedup_props(rest, seen);
            assert(r == dedup_accept(rest, seen));
            assert forall|k: int, i: int|
                0 <= k < r.len() && 0 <= i < files.len() && (#[trigger] files[i]).content is Some
                    && file_hash(#[trigger] r[k]) == file_hash(files[i]) implies lex_le(
                name_of(r[k]),
                name_of(files[i]),
            ) by {
                if i == 0 {
                    assert(!seen.contains(file_hash(r[k])));
                } else {
                    assert(rest[i - 1] == files[i]);
                }
            }
        } else {
            let seen2 = seen.insert(file_hash(f));
            lemma_dedup_min_name(rest, seen2);
            lemma_dedup_props(rest, seen2);
            let rr = dedup_accept(rest, seen2);
            assert(r == seq![f] + rr);
            assert forall|k: int, i: int|
                0 <= k < r.len() && 0 <= i < files.len() && (#[trigger] files[i]).content is Some
                    && file_hash(#[trigger] r[k]) == file_hash(files[i]) implies lex_le(
                name_of(r[k]),
                name_of(files[i]),
            ) by {
                if k == 0 {
                    if i == 0 {
                        lemma_lex_le_total(name_of(f), name_of(f));
                    } else {
                        assert(lex_le(name_of(files[0]), name_of(files[i])));
                    }
                } else {
                    assert(r[k] == rr[k - 1]);
                    assert(!seen2.contains(file_hash(rr[k - 1])));
                    if i > 0 {
                        assert(rest[i - 1] == files[i]);
                    }
                }
            }
        }
    }
}

/// Duplicate content appears once: among the files one run includes,
/// content hashes are pairwise distinct; the hash of every readable
/// input file is represented; and an included file's name compares
/// `lex_le` to that of every readable input file sharing its hash — of
/// several files with identical content, the one that sorts first by
/// file name is the one included. The law speaks of hashes because the
/// dedup itself does: equal contents always share a hash, so at most
/// one of them is ever included, but nothing can rule out that two
/// distinct contents collide and dedup as if equal.
pub proof fn lemma_dedup_by_content(files: Seq<FileInput>)
    ensures
        forall|k: int|
            0 <= k < spec_included(files).len() ==> files.contains(
                #[trigger] spec_included(files)[k],
            ) && spec_included(files)[k].content is Some,
        forall|k: int, l: int|
            0 <= k < l < spec_included(files).len() ==> file_hash(
                #[trigger] spec_included(files)[k],
            ) != file_hash(#[trigger] spec_included(files)[l]),
        forall|f: FileInput| #[trigger]
            files.contains(f) && f.content is Some ==> exists|k: int|
                0 <= k < spec_included(files).len() && file_hash(
                    #[trigger] spec_included(files)[k],
                ) == file_hash(f),
        forall|k: int, f: FileInput|
            0 <= k < spec_included(files).len() && #[trigger] files.contains(f) && f.content
                is Some && file_hash(#[trigger] spec_included(files)[k]) == file_hash(f)
                ==> lex_le(name_of(spec_included(files)[k]), name_of(f)),
{
    let s = sort_files_spec(files);
    let r = spec_included(files);
    lemma_sort_files_ensures(files);
    lemma_dedup_props(s, Set::empty());
    lemma_dedup_min_name(s, Set::empty());
    assert forall|k: int| 0 <= k < r.len() implies files.contains(#[trigger] r[k]) && r[k].content
        is Some by {
        assert(s.contains(r[k]));
    }
    assert forall|f: FileInput| #[trigger] files.contains(f) && f.content is Some implies exists|
        k: int,
    |
        0 <= k < r.len() && file_hash(#[trigger] r[k]) == file_hash(f) by {
        assert(s.contains(f));
        let i = choose|i: int| 0 <= i < s.len() && s[i] == f;
        assert(s[i].content is Some && !Set::<u64>::empty().contains(file_hash(s[i])));
        let k = choose|k: int| 0 <= k < r.len() && file_hash(#[trigger] r[k]) == file_hash(s[i]);
        assert(file_hash(r[k]) == file_hash(f));
    }
    assert forall|k: int, f: FileInput|
        0 <= k < r.len() && #[trigger] files.contains(f) && f.content is Some && file_hash(
            #[trigger] r[k],
        ) == file_hash(f) implies lex_le(name_of(r[k]), name_of(f)) by {
        assert(s.contains(f));
        let i = choose|i: int| 0 <= i < s.len() && s[i] == f;
        assert(lex_le(name_of(r[k]), name_of(s[i])));
    }
}

/// Two files with identical textual content are never both included in
/// one run.
pub proof fn lemma_duplicate_content_excluded(files: Seq<FileInput>, k: int, l: int)
    requires
        0 <= k < spec_included(files).len(),
        0 <= l < spec_included(files).len(),
        k != l,
    ensures
        spec_included(files)[k].content->0@ != spec_included(files)[l].content->0@,
{
    lemma_dedup_by_content(files);
    if spec_included(files)[k].content->0@ == spec_included(files)[l].content->0@ {
        assert(file_hash(spec_included(files)[k]) == file_hash(spec_included(files)[l]));
    }
}

/// A category's buffer is empty when no included file belongs to it.
proof fn lemma_cat_buffer_empty(acc: Seq<FileInput>, cat: Category, meta: bool)
    requires
        forall|k: int| 0 <= k < acc.len() ==> category_of((#[trigger] acc[k]).path@) != cat,
    ensures
        cat_buffer(acc, cat, meta) == Seq::<char>::empty(),
    decreases acc.len(),
{
    if acc.len() > 0 {
        assert forall|k: int|
            0 <= k < acc.skip(1).len() implies category_of((#[trigger] acc.skip(1)[k]).path@)
            != cat by {
            assert(acc.skip(1)[k] == acc[k + 1]);
        }
        lemma_cat_buffer_empty(acc.skip(1), cat, meta);
        assert(cat_buffer(acc, cat, meta) =~= Seq::<char>::empty());
    }
}

/// A category's buffer is nonempty when some included file belongs to
/// it.
proof fn lemma_cat_buffer_nonempty(acc: Seq<FileInput>, cat: Category, meta: bool, k: int)
    requires
        0 <= k < acc.len(),
        category_of(acc[k].path@) == cat,
    ensures
        cat_buffer(acc, cat, meta).len() > 0,
    decreases acc.len(),
{
    if k == 0 {
        assert(file_block(acc[0], meta).len() > 0);
    } else {
        assert(acc.skip(1)[k - 1] == acc[k]);
        lemma_cat_buffer_nonempty(acc.skip(1), cat, meta, k - 1);
    }
}

/// A category none of the included files belongs to contributes
/// nothing to the document: no blocks, and no section header either.
pub proof fn lemma_empty_category_omitted(files: Seq<FileInput>, cat: Category, meta: bool)
    requires
        forall|k: int|
            0 <= k < spec_included(files).len() ==> category_of(
                (#[trigger] spec_included(files)[k]).path@,
            ) != cat,
    ensures
        section_text(spec_included(files), cat, meta) == Seq::<char>::empty(),
{
    lemma_cat_buffer_empty(spec_included(files), cat, meta);
}

/// A category some included file belongs to stands in the document as
/// its section header followed by its blocks.
pub proof fn lemma_present_category_has_section(
    files: Seq<FileInput>,
    cat: Category,
    meta: bool,
    k: int,
)
    requires
        0 <= k < spec_included(files).len(),
        category_of(spec_included(files)[k].path@) == cat,
    ensures
        section_text(spec_included(files), cat, meta) == section_header(cat) + cat_buffer(
            spec_included(files),
            cat,
            meta,
        ),
        cat_buffer(spec_included(files), cat, meta).len() > 0,
{
    lemma_cat_buffer_nonempty(spec_included(files), cat, meta, k);
}

} // verus!
