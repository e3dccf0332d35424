//! Character-sequence utilities shared by discovery and aggregation:
//! lexicographic order on strings, path decomposition, and rendering
//! helpers for the assembled document.

use vstd::prelude::*;

verus! {

/// Lexicographic "less than or equal" on character sequences, ordering
/// characters by their code points.
pub open spec fn lex_le(a: Seq<char>, b: Seq<char>) -> bool
    decreases a.len(),
{
    if a.len() == 0 {
        true
    } else if b.len() == 0 {
        false
    } else if a[0] == b[0] {
        lex_le(a.skip(1), b.skip(1))
    } else {
        (a[0] as u32) < (b[0] as u32)
    }
}

/// Distinct characters have distinct code points.
proof fn lemma_char_injective(x: char, y: char)
    requires
        x as u32 == y as u32,
    ensures
        x == y,
{
    vstd::utf8::char_u32_cast(x, x as u32);
    vstd::utf8::char_u32_cast(y, y as u32);
}

/// Any two strings are comparable under `lex_le`.
pub proof fn lemma_lex_le_total(a: Seq<char>, b: Seq<char>)
    ensures
        lex_le(a, b) || lex_le(b, a),
    decreases a.len(),
{
    if a.len() == 0 || b.len() == 0 {
    } else if a[0] == b[0] {
        lemma_lex_le_total(a.skip(1), b.skip(1));
    } else {
        assert(a[0] as u32 != b[0] as u32) by {
            if a[0] as u32 == b[0] as u32 {
                lemma_char_injective(a[0], b[0]);
            }
        }
    }
}

/// `lex_le` is transitive.
pub proof fn lemma_lex_le_trans(a: Seq<char>, b: Seq<char>, c: Seq<char>)
    requires
        lex_le(a, b),
        lex_le(b, c),
    ensures
        lex_le(a, c),
    decreases a.len(),
{
    if a.len() == 0 || b.len() == 0 || c.len() == 0 {
    } else if a[0] == b[0] && b[0] == c[0] {
        lemma_lex_le_trans(a.skip(1), b.skip(1), c.skip(1));
    }
}

/// If the first `i` characters of `a` and `b` agree, the order of `a` and
/// `b` is decided by their tails from position `i` on.
proof fn lemma_lex_le_common_prefix(a: Seq<char>, b: Seq<char>, i: int)
    requires
        0 <= i <= a.len(),
        i <= b.len(),
        forall|j: int| 0 <= j < i ==> a[j] == b[j],
    ensures
        lex_le(a, b) == lex_le(a.skip(i), b.skip(i)),
    decreases i,
{
    if i == 0 {
        assert(a.skip(0) =~= a);
        assert(b.skip(0) =~= b);
    } else {
        assert(a[0] == b[0]);
        lemma_lex_le_common_prefix(a.skip(1), b.skip(1), i - 1);
        assert(a.skip(1).skip(i - 1) =~= a.skip(i));
        assert(b.skip(1).skip(i - 1) =~= b.skip(i));
    }
}

/// Decides `lex_le` on two string slices.
pub fn str_le(a: &str, b: &str) -> (r: bool)
    ensures
        r == lex_le(a@, b@),
{
    let al = a.unicode_len();
    let bl = b.unicode_len();
    let mut i: usize = 0;
    while i < al && i < bl
        invariant
            i <= al,
            i <= bl,
            al == a@.len(),
            bl == b@.len(),
            forall|j: int| 0 <= j < i ==> a@[j] == b@[j],
        decreases al - i,
    {
        let ca = a.get_char(i);
        let cb = b.get_char(i);
        if ca != cb {
            proof {
                lemma_lex_le_common_prefix(a@, b@, i as int);
            }
            return (ca as u32) < (cb as u32);
        }
        i = i + 1;
    }
    proof {
        lemma_lex_le_common_prefix(a@, b@, i as int);
    }
    al <= bl
}

/// Decides equality of two string slices.
pub fn str_eq(a: &str, b: &str) -> (r: bool)
    ensures
        r == (a@ == b@),
{
    let al = a.unicode_len();
    let bl = b.unicode_len();
    if al != bl {
        return false;
    }
    let mut i: usize = 0;
    while i < al
        invariant
            i <= al,
            al == a@.len(),
            al == b@.len(),
            forall|j: int| 0 <= j < i ==> a@[j] == b@[j],
        decreases al - i,
    {
        if a.get_char(i) != b.get_char(i) {
            return false;
        }
        i = i + 1;
    }
    proof {
        assert(a@ =~= b@);
    }
    true
}

/// Position of the last occurrence of `c` in `s`, or `-1` when `c` does
/// not occur.
pub open spec fn last_index_of(s: Seq<char>, c: char) -> int
    decreases s.len(),
{
    if s.len() == 0 {
        -1
    } else if s[s.len() - 1] == c {
        s.len() - 1
    } else {
        last_index_of(s.drop_last(), c)
    }
}

/// What `last_index_of` returns: the position of `c` with nothing equal
/// to `c` after it, or `-1` when `c` is absent.
pub proof fn lemma_last_index_of(s: Seq<char>, c: char)
    ensures
        -1 <= last_index_of(s, c) < s.len(),
        last_index_of(s, c) >= 0 ==> s[last_index_of(s, c)] == c,
        forall|j: int| last_index_of(s, c) < j < s.len() ==> s[j] != c,
    decreases s.len(),
{
    if s.len() > 0 && s[s.len() - 1] != c {
        lemma_last_index_of(s.drop_last(), c);
        assert forall|j: int| last_index_of(s, c) < j < s.len() implies s[j] != c by {
            if j < s.len() - 1 {
                assert(s.drop_last()[j] != c);
            }
        }
    }
}

/// Finds the last occurrence of `c` in `s`.
pub fn find_last(s: &str, c: char) -> (r: Option<usize>)
    ensures
        match r {
            Some(i) => i == last_index_of(s@, c) && i < s@.len(),
            None => last_index_of(s@, c) == -1,
        },
{
    let n = s.unicode_len();
    let mut i: usize = n;
    while i > 0
        invariant
            i <= n,
            n == s@.len(),
            forall|j: int| i <= j < n ==> s@[j] != c,
        decreases i,
    {
        i = i - 1;
        if s.get_char(i) == c {
            proof {
                lemma_last_index_of(s@, c);
            }
            return Some(i);
        }
    }
    proof {
        lemma_last_index_of(s@, c);
        if last_index_of(s@, c) >= 0 {
            assert(s@[last_index_of(s@, c)] == c);
        }
    }
    None
}

/// The final segment of a path: everything after the last `/`, or the
/// whole string when it has no `/`.
pub open spec fn file_name_of(p: Seq<char>) -> Seq<char> {
    p.skip(last_index_of(p, '/') + 1)
}

/// Extracts the final path segment.
pub fn file_name(p: &str) -> (r: String)
    ensures
        r@ == file_name_of(p@),
{
    let n = s_len(p);
    match find_last(p, '/') {
        Some(i) => String::from_str(p.substring_char(i + 1, n)),
        None => {
            proof {
                assert(p@.skip(0) =~= p@);
            }
            String::from_str(p)
        },
    }
}

/// The extension of a path: the part of the file name after its last
/// `.`, provided that dot is not the name's first character. A name
/// without a dot, or one starting with its only dot, has no extension.
pub open spec fn extension_of(p: Seq<char>) -> Option<Seq<char>> {
    let f = file_name_of(p);
    let d = last_index_of(f, '.');
    if d <= 0 {
        None
    } else {
        Some(f.skip(d + 1))
    }
}

/// Extracts the extension of a path.
pub fn extension(p: &str) -> (r: Option<String>)
    ensures
        match r {
            Some(e) => extension_of(p@) is Some && e@ == extension_of(p@)->0,
            None => extension_of(p@) is None,
        },
{
    let f = file_name(p);
    let fs = f.as_str();
    let n = s_len(fs);
    match find_last(fs, '.') {
        Some(d) => {
            if d == 0 {
                None
            } else {
                Some(String::from_str(fs.substring_char(d + 1, n)))
            }
        },
        None => None,
    }
}

/// Character length of a string slice.
pub fn s_len(s: &str) -> (n: usize)
    ensures
        n == s@.len(),
{
    s.unicode_len()
}

/// ASCII lowercase of one character; other characters are unchanged.
pub open spec fn lower_char(c: char) -> char {
    if 'A' <= c && c <= 'Z' {
        ((c as u32) + 32) as char
    } else {
        c
    }
}

/// ASCII lowercase of a string.
pub open spec fn lower(s: Seq<char>) -> Seq<char> {
    s.map_values(|c: char| lower_char(c))
}

/// Lowercases one ASCII letter.
pub fn to_lower_char(c: char) -> (r: char)
    ensures
        r == lower_char(c),
{
    if 'A' <= c && c <= 'Z' {
        proof {
            vstd::utf8::char_is_scalar(c);
        }
        (((c as u32) + 32) as u8) as char
    } else {
        c
    }
}

/// `needle` occurs contiguously inside `hay`.
pub open spec fn contains_seq(hay: Seq<char>, needle: Seq<char>) -> bool {
    exists|i: int|
        0 <= i && i + needle.len() <= hay.len() && #[trigger] hay.subrange(i, i + needle.len())
            == needle
}

/// Decides whether `needle` occurs contiguously inside `hay`.
pub fn str_contains(hay: &str, needle: &str) -> (r: bool)
    ensures
        r == contains_seq(hay@, needle@),
{
    let hn = hay.unicode_len();
    let nn = needle.unicode_len();
    if nn > hn {
        return false;
    }
    if nn == 0 {
        proof {
            assert(hay@.subrange(0, 0 + needle@.len() as int) =~= needle@);
        }
        return true;
    }
    let mut i: usize = 0;
    while i <= hn - nn
        invariant
            1 <= nn <= hn,
            hn == hay@.len(),
            nn == needle@.len(),
            i <= hn - nn + 1,
            forall|k: int|
                0 <= k < i ==> #[trigger] hay@.subrange(k, k + needle@.len()) != needle@,
        decreases hn - nn - i + 1,
    {
        if str_eq(hay.substring_char(i, i + nn), needle) {
            return true;
        }
        i = i + 1;
    }
    false
}

/// Characters stripped from the end of file contents before assembly:
/// the Unicode white-space set, the one `char::is_whitespace` decides.
pub open spec fn is_space(c: char) -> bool {
    let u = c as u32;
    ||| (0x09 <= u && u <= 0x0D)
    ||| u == 0x20
    ||| u == 0x85
    ||| u == 0xA0
    ||| u == 0x1680
    ||| (0x2000 <= u && u <= 0x200A)
    ||| u == 0x2028
    ||| u == 0x2029
    ||| u == 0x202F
    ||| u == 0x205F
    ||| u == 0x3000
}

/// Decides `is_space`.
fn is_space_char(c: char) -> (r: bool)
    ensures
        r == is_space(c),
{
    let u = c as u32;
    (0x09 <= u && u <= 0x0D) || u == 0x20 || u == 0x85 || u == 0xA0 || u == 0x1680 || (0x2000 <= u
        && u <= 0x200A) || u == 0x2028 || u == 0x2029 || u == 0x202F || u == 0x205F || u == 0x3000
}

/// Length of `s` once trailing whitespace is removed.
pub open spec fn trimmed_len(s: Seq<char>) -> int
    decreases s.len(),
{
    if s.len() == 0 {
        0
    } else if is_space(s[s.len() - 1]) {
        trimmed_len(s.drop_last())
    } else {
        s.len() as int
    }
}

/// `s` with trailing whitespace removed.
pub open spec fn trim_end(s: Seq<char>) -> Seq<char> {
    s.subrange(0, trimmed_len(s))
}

proof fn lemma_trimmed_len_bounds(s: Seq<char>)
    ensures
        0 <= trimmed_len(s) <= s.len(),
    decreases s.len(),
{
    if s.len() > 0 && is_space(s[s.len() - 1]) {
        lemma_trimmed_len_bounds(s.drop_last());
    }
}

fn ends_in_space(s: &str, i: usize) -> (r: bool)
    requires
        i <= s@.len(),
    ensures
        r == (i > 0 && is_space(s@[i - 1])),
{
    if i == 0 {
        false
    } else {
        is_space_char(s.get_char(i - 1))
    }
}

/// Lowercases a string, ASCII letter by letter.
pub fn to_lower_str(s: &str) -> (r: String)
    ensures
        r@ == lower(s@),
{
    let n = s.unicode_len();
    let mut r = String::new();
    let mut i: usize = 0;
    while i < n
        invariant
            i <= n,
            n == s@.len(),
            r@ == lower(s@.subrange(0, i as int)),
        decreases n - i,
    {
        push_char(&mut r, to_lower_char(s.get_char(i)));
        proof {
            assert(lower(s@.subrange(0, i + 1)) =~= lower(s@.subrange(0, i as int)).push(
                lower_char(s@[i as int]),
            ));
        }
        i = i + 1;
    }
    proof {
        assert(s@.subrange(0, n as int) =~= s@);
    }
    r
}

/// Computes the length of `s` without its trailing whitespace.
pub fn trim_end_len(s: &str) -> (r: usize)
    ensures
        r == trimmed_len(s@),
        r <= s@.len(),
{
    let mut i = s.unicode_len();
    proof {
        assert(s@.subrange(0, s@.len() as int) =~= s@);
    }
    while ends_in_space(s, i)
        invariant
            i <= s@.len(),
            trimmed_len(s@) == trimmed_len(s@.subrange(0, i as int)),
        decreases i,
    {
        proof {
            assert(s@.subrange(0, i as int).drop_last() =~= s@.subrange(0, i - 1));
        }
        i = i - 1;
    }
    proof {
        lemma_trimmed_len_bounds(s@.subrange(0, i as int));
    }
    i
}

/// The decimal digit character for a value below ten.
pub open spec fn digit_char(d: int) -> char {
    if d == 0 {
        '0'
    } else if d == 1 {
        '1'
    } else if d == 2 {
        '2'
    } else if d == 3 {
        '3'
    } else if d == 4 {
        '4'
    } else if d == 5 {
        '5'
    } else if d == 6 {
        '6'
    } else if d == 7 {
        '7'
    } else if d == 8 {
        '8'
    } else {
        '9'
    }
}

/// Decimal rendering of a natural number, most significant digit first.
pub open spec fn dec_chars(n: nat) -> Seq<char>
    decreases n,
{
    if n < 10 {
        seq![digit_char(n as int)]
    } else {
        dec_chars(n / 10).push(digit_char((n % 10) as int))
    }
}

fn digit_to_char(d: u64) -> (r: char)
    requires
        d < 10,
    ensures
        r == digit_char(d as int),
{
    if d == 0 {
        '0'
    } else if d == 1 {
        '1'
    } else if d == 2 {
        '2'
    } else if d == 3 {
        '3'
    } else if d == 4 {
        '4'
    } else if d == 5 {
        '5'
    } else if d == 6 {
        '6'
    } else if d == 7 {
        '7'
    } else if d == 8 {
        '8'
    } else {
        '9'
    }
}

/// Relies on `String::push`: appends one character to the string.
#[verifier::external_body]
pub fn push_char(s: &mut String, c: char)
    ensures
        final(s)@ == old(s)@.push(c),
{
    s.push(c);
}

/// Renders `n` in decimal.
pub fn u64_to_dec(n: u64) -> (r: String)
    ensures
        r@ == dec_chars(n as nat),
{
    let mut digits: Vec<char> = Vec::new();
    let mut m = n;
    while m >= 10
        invariant
            dec_chars(n as nat) =~= dec_chars(m as nat) + digits@.reverse(),
        decreases m,
    {
        let d = digit_to_char(m % 10);
        proof {
            assert((digits@.push(d)).reverse() =~= seq![d] + digits@.reverse());
            assert(dec_chars(m as nat) =~= dec_chars((m as nat) / 10).push(d));
            assert(dec_chars((m as nat) / 10).push(d) =~= dec_chars((m as nat) / 10) + seq![d]);
        }
        digits.push(d);
        m = m / 10;
    }
    let mut r = String::new();
    push_char(&mut r, digit_to_char(m));
    let mut i = digits.len();
    while i > 0
        invariant
            i <= digits@.len(),
            r@ =~= dec_chars(m as nat) + digits@.subrange(i as int, digits@.len() as int).reverse(),
        decreases i,
    {
        i = i - 1;
        proof {
            assert(digits@.subrange(i as int, digits@.len() as int).reverse() =~= digits@.subrange(
                i + 1,
                digits@.len() as int,
            ).reverse().push(digits@[i as int]));
        }
        push_char(&mut r, digits[i]);
    }
    proof {
        assert(digits@.subrange(0, digits@.len() as int) =~= digits@);
        assert(r@ =~= dec_chars(n as nat));
    }
    r
}

} // verus!
