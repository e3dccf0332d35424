//! Deterministic ordering of discovered paths: an insertion sort whose
//! result is pinned down as a spec-level function of the input.

use vstd::prelude::*;
use crate::strings::{lex_le, lemma_lex_le_total, lemma_lex_le_trans, str_le};

verus! {

/// `x` placed into `s` before the trailing run of elements that do not
/// compare `lex_le` to it; on a sorted `s` this keeps the order.
pub open spec fn insert_path(s: Seq<String>, x: String) -> Seq<String>
    decreases s.len(),
{
    if s.len() == 0 {
        seq![x]
    } else if lex_le(s.last()@, x@) {
        s.push(x)
    } else {
        insert_path(s.drop_last(), x).push(s.last())
    }
}

/// Insertion sort of paths under `lex_le` of the whole string.
pub open spec fn sort_paths_spec(s: Seq<String>) -> Seq<String>
    decreases s.len(),
{
    if s.len() == 0 {
        s
    } else {
        insert_path(sort_paths_spec(s.drop_last()), s.last())
    }
}

/// Every pair of positions is ordered by `lex_le` of the whole string.
pub open spec fn paths_sorted(s: Seq<String>) -> bool {
    forall|i: int, j: int| 0 <= i < j < s.len() ==> lex_le(#[trigger] s[i]@, #[trigger] s[j]@)
}

/// `insert_path` adds exactly `x` to the elements of `s`.
pub proof fn lemma_insert_path_contains(s: Seq<String>, x: String)
    ensures
        insert_path(s, x).len() == s.len() + 1,
        forall|y: String| #[trigger] insert_path(s, x).contains(y) <==> (s.contains(y) || y == x),
    decreases s.len(),
{
    if s.len() == 0 {
        assert forall|y: String| #[trigger] insert_path(s, x).contains(y) implies (s.contains(y)
            || y == x) by {
            assert(insert_path(s, x) =~= seq![x]);
        }
        assert(insert_path(s, x).contains(x)) by {
            assert(insert_path(s, x)[0] == x);
        }
    } else if lex_le(s.last()@, x@) {
        assert forall|y: String| #[trigger] s.push(x).contains(y) implies (s.contains(y) || y
            == x) by {
            let i = choose|i: int| 0 <= i < s.push(x).len() && s.push(x)[i] == y;
            if i < s.len() {
                assert(s[i] == y);
            }
        }
        assert forall|y: String| s.contains(y) || y == x implies #[trigger] s.push(x).contains(
            y,
        ) by {
            if y == x {
                assert(s.push(x)[s.len() as int] == x);
            } else {
                let i = choose|i: int| 0 <= i < s.len() && s[i] == y;
                assert(s.push(x)[i] == y);
            }
        }
    } else {
        lemma_insert_path_contains(s.drop_last(), x);
        let t = insert_path(s.drop_last(), x);
        assert forall|y: String| #[trigger] t.push(s.last()).contains(y) implies (s.contains(y)
            || y == x) by {
            let i = choose|i: int| 0 <= i < t.push(s.last()).len() && t.push(s.last())[i] == y;
            if i < t.len() {
                assert(t[i] == y);
                assert(t.contains(y));
                if s.drop_last().contains(y) {
                    let k = choose|k: int| 0 <= k < s.drop_last().len() && s.drop_last()[k] == y;
                    assert(s[k] == y);
                }
            } else {
                assert(s[s.len() - 1] == y);
            }
        }
        assert forall|y: String| s.contains(y) || y == x implies #[trigger] t.push(
            s.last(),
        ).contains(y) by {
            if y == x {
                assert(t.contains(y));
                let k = choose|k: int| 0 <= k < t.len() && t[k] == y;
                assert(t.push(s.last())[k] == y);
            } else {
                let i = choose|i: int| 0 <= i < s.len() && s[i] == y;
                if i < s.len() - 1 {
                    assert(s.drop_last()[i] == y);
                    assert(t.contains(y));
                    let k = choose|k: int| 0 <= k < t.len() && t[k] == y;
                    assert(t.push(s.last())[k] == y);
                } else {
                    assert(t.push(s.last()).last() == y);
                }
            }
        }
    }
}

/// Inserting into a sorted sequence keeps it sorted.
pub proof fn lemma_insert_path_sorted(s: Seq<String>, x: String)
    requires
        paths_sorted(s),
    ensures
        paths_sorted(insert_path(s, x)),
    decreases s.len(),
{
    if s.len() == 0 {
    } else if lex_le(s.last()@, x@) {
        assert forall|i: int, j: int|
            0 <= i < j < s.push(x).len() implies lex_le(
            #[trigger] s.push(x)[i]@,
            #[trigger] s.push(x)[j]@,
        ) by {
            if j == s.len() {
                if i < s.len() - 1 {
                    lemma_lex_le_trans(s[i]@, s.last()@, x@);
                }
            }
        }
    } else {
        assert(paths_sorted(s.drop_last())) by {
            assert forall|i: int, j: int|
                0 <= i < j < s.drop_last().len() implies lex_le(
                #[trigger] s.drop_last()[i]@,
                #[trigger] s.drop_last()[j]@,
            ) by {
                assert(s.drop_last()[i] == s[i]);
                assert(s.drop_last()[j] == s[j]);
            }
        }
        lemma_insert_path_sorted(s.drop_last(), x);
        lemma_insert_path_contains(s.drop_last(), x);
        let t = insert_path(s.drop_last(), x);
        assert forall|i: int, j: int|
            0 <= i < j < t.push(s.last()).len() implies lex_le(
            #[trigger] t.push(s.last())[i]@,
            #[trigger] t.push(s.last())[j]@,
        ) by {
            if j == t.len() {
                assert(t.contains(t[i]));
                if t[i] == x {
                    lemma_lex_le_total(s.last()@, x@);
                } else {
                    assert(s.drop_last().contains(t[i]));
                    let k = choose|k: int|
                        0 <= k < s.drop_last().len() && s.drop_last()[k] == t[i];
                    assert(s[k] == t[i]);
                    assert(lex_le(s[k]@, s[s.len() - 1]@));
                }
            }
        }
    }
}

/// The sort is a reordering: it keeps exactly the elements of its input.
pub proof fn lemma_sort_paths_ensures(s: Seq<String>)
    ensures
        paths_sorted(sort_paths_spec(s)),
        sort_paths_spec(s).len() == s.len(),
        forall|y: String| #[trigger] sort_paths_spec(s).contains(y) <==> s.contains(y),
    decreases s.len(),
{
    if s.len() == 0 {
    } else {
        lemma_sort_paths_ensures(s.drop_last());
        lemma_insert_path_sorted(sort_paths_spec(s.drop_last()), s.last());
        lemma_insert_path_contains(sort_paths_spec(s.drop_last()), s.last());
        assert forall|y: String| #[trigger] sort_paths_spec(s).contains(y) implies s.contains(
            y,
        ) by {
            if sort_paths_spec(s.drop_last()).contains(y) {
                let k = choose|k: int| 0 <= k < s.drop_last().len() && s.drop_last()[k] == y;
                assert(s[k] == y);
            } else {
                assert(s[s.len() - 1] == y);
            }
        }
        assert forall|y: String| s.contains(y) implies #[trigger] sort_paths_spec(s).contains(
            y,
        ) by {
            let i = choose|i: int| 0 <= i < s.len() && s[i] == y;
            if i < s.len() - 1 {
                assert(s.drop_last()[i] == y);
            }
        }
    }
}

/// Where the scan of `insert_path_exec` stops, the spec insertion puts `x`.
proof fn lemma_insert_path_at(s: Seq<String>, x: String, j: int)
    requires
        0 <= j <= s.len(),
        forall|k: int| j <= k < s.len() ==> !lex_le(#[trigger] s[k]@, x@),
        j > 0 ==> lex_le(s[j - 1]@, x@),
    ensures
        insert_path(s, x) == s.subrange(0, j).push(x) + s.subrange(j, s.len() as int),
    decreases s.len(),
{
    if s.len() == 0 {
        assert(insert_path(s, x) =~= s.subrange(0, j).push(x) + s.subrange(j, s.len() as int));
    } else if lex_le(s.last()@, x@) {
        assert(j == s.len());
        assert(s.subrange(0, j) =~= s);
        assert(insert_path(s, x) =~= s.subrange(0, j).push(x) + s.subrange(j, s.len() as int));
    } else {
        assert(j < s.len());
        assert forall|k: int| j <= k < s.drop_last().len() implies !lex_le(
            #[trigger] s.drop_last()[k]@,
            x@,
        ) by {
            assert(s.drop_last()[k] == s[k]);
        }
        if j > 0 {
            assert(s.drop_last()[j - 1] == s[j - 1]);
        }
        lemma_insert_path_at(s.drop_last(), x, j);
        assert(s.drop_last().subrange(0, j) =~= s.subrange(0, j));
        assert(insert_path(s, x) =~= s.subrange(0, j).push(x) + s.subrange(j, s.len() as int));
    }
}

fn shift_here(r: &Vec<String>, j: usize, x: &String) -> (b: bool)
    requires
        j <= r@.len(),
    ensures
        b == (j > 0 && !lex_le(r@[j - 1]@, x@)),
{
    if j == 0 {
        false
    } else {
        !str_le(r[j - 1].as_str(), x.as_str())
    }
}

/// Sorts paths by `lex_le` of the whole string.
pub fn sort_paths(v: Vec<String>) -> (r: Vec<String>)
    ensures
        r@ == sort_paths_spec(v@),
{
    let mut r: Vec<String> = Vec::new();
    let mut i: usize = 0;
    proof {
        assert(v@.subrange(0, 0) =~= Seq::<String>::empty());
    }
    while i < v.len()
        invariant
            i <= v@.len(),
            r@ == sort_paths_spec(v@.subrange(0, i as int)),
        decreases v@.len() - i,
    {
        let x = v[i].clone();
        let ghost r_old = r@;
        let mut j = r.len();
        while shift_here(&r, j, &x)
            invariant
                j <= r@.len(),
                r@ == r_old,
                forall|k: int| j <= k < r@.len() ==> !lex_le(#[trigger] r@[k]@, x@),
            decreases j,
        {
            j = j - 1;
        }
        proof {
            lemma_insert_path_at(r@, x, j as int);
        }
        r.insert(j, x);
        proof {
            assert(r@ =~= r_old.subrange(0, j as int).push(x) + r_old.subrange(
                j as int,
                r_old.len() as int,
            ));
            assert(v@.subrange(0, i + 1).drop_last() =~= v@.subrange(0, i as int));
            assert(v@.subrange(0, i + 1).last() == v@[i as int]);
        }
        i = i + 1;
    }
    proof {
        assert(v@.subrange(0, v@.len() as int) =~= v@);
    }
    r
}

} // verus!
