//! Lexicographic order on strings, sorting, and lookups in sorted lists.

use vstd::prelude::*;
use itertools::Itertools;
use crate::text::chars_of;

verus! {

broadcast use vstd::string::group_string_axioms;

/// The views of a sequence of strings.
pub open spec fn views(s: Seq<String>) -> Seq<Seq<char>> {
    s.map_values(|x: String| x@)
}

/// `a` comes before `b` in the order of code points, character by character,
/// a proper prefix first.
pub open spec fn lex_lt(a: Seq<char>, b: Seq<char>) -> bool
    decreases a.len(),
{
    if a.len() == 0 {
        b.len() > 0
    } else if b.len() == 0 {
        false
    } else if a[0] != b[0] {
        a[0] < b[0]
    } else {
        lex_lt(a.drop_first(), b.drop_first())
    }
}

/// `a` is `b` or comes before it.
pub open spec fn lex_le(a: Seq<char>, b: Seq<char>) -> bool {
    a == b || lex_lt(a, b)
}

/// Each element is at most the next ones.
pub open spec fn is_sorted(s: Seq<Seq<char>>) -> bool {
    forall|i: int, j: int| 0 <= i < j < s.len() ==> lex_le(s[i], s[j])
}

/// Each element is below the next ones: sorted, without duplicates.
pub open spec fn is_strictly_sorted(s: Seq<Seq<char>>) -> bool {
    forall|i: int, j: int| 0 <= i < j < s.len() ==> lex_lt(s[i], s[j])
}

/// Nothing comes before itself.
pub proof fn lemma_lex_irreflexive(a: Seq<char>)
    ensures
        !lex_lt(a, a),
    decreases a.len(),
{
    if a.len() > 0 {
        lemma_lex_irreflexive(a.drop_first());
    }
}

/// Of two different strings exactly one comes first.
pub proof fn lemma_lex_trichotomy(a: Seq<char>, b: Seq<char>)
    ensures
        a == b || lex_lt(a, b) || lex_lt(b, a),
        !(lex_lt(a, b) && lex_lt(b, a)),
    decreases a.len(),
{
    if a.len() > 0 && b.len() > 0 && a[0] == b[0] {
        lemma_lex_trichotomy(a.drop_first(), b.drop_first());
        if a.drop_first() == b.drop_first() {
            assert(a =~= seq![a[0]] + a.drop_first());
            assert(b =~= seq![b[0]] + b.drop_first());
        }
    } else if a.len() == 0 && b.len() == 0 {
        assert(a =~= b);
    }
}

/// The order is transitive.
pub proof fn lemma_lex_transitive(a: Seq<char>, b: Seq<char>, c: Seq<char>)
    requires
        lex_lt(a, b),
        lex_lt(b, c),
    ensures
        lex_lt(a, c),
    decreases a.len(),
{
    if a.len() > 0 && a[0] == b[0] && b[0] == c[0] {
        lemma_lex_transitive(a.drop_first(), b.drop_first(), c.drop_first());
    }
}

/// Whether `a` comes before `b`.
pub fn lex_less(a: &Vec<char>, b: &Vec<char>) -> (r: bool)
    ensures
        r == lex_lt(a@, b@),
{
    let mut i: usize = 0;
    assert(a@.skip(0) =~= a@);
    assert(b@.skip(0) =~= b@);
    while i < a.len() && i < b.len() && a[i] == b[i]
        invariant
            i <= a.len(),
            i <= b.len(),
            lex_lt(a@, b@) == lex_lt(a@.skip(i as int), b@.skip(i as int)),
        decreases a.len() - i,
    {
        assert(a@.skip(i as int).drop_first() =~= a@.skip(i + 1));
        assert(b@.skip(i as int).drop_first() =~= b@.skip(i + 1));
        i += 1;
    }
    if i == a.len() {
        return i < b.len();
    }
    if i == b.len() {
        return false;
    }
    a[i] < b[i]
}

/// Relies on itertools' `sorted`, which collects the items and calls
/// `slice::sort` on them, with `Ord for String`: the byte order of UTF-8,
/// which is the order of code points.
#[verifier::external_body]
pub(crate) fn sorted_strings(v: &Vec<String>) -> (r: Vec<String>)
    ensures
        views(r@).to_multiset() == views(v@).to_multiset(),
        is_sorted(views(r@)),
{
    v.iter().sorted().cloned().collect()
}

/// Two sequences with the same elements, counted, have the same members.
pub proof fn lemma_same_members(a: Seq<Seq<char>>, b: Seq<Seq<char>>)
    requires
        a.to_multiset() == b.to_multiset(),
    ensures
        a.to_set() == b.to_set(),
{
    assert forall|x: Seq<char>| a.contains(x) <==> b.contains(x) by {
        a.to_multiset_ensures();
        b.to_multiset_ensures();
        assert(a.to_multiset().count(x) == b.to_multiset().count(x));
        assert(a.contains(x) <==> a.to_multiset().count(x) > 0);
        assert(b.contains(x) <==> b.to_multiset().count(x) > 0);
    }
    assert(a.to_set() =~= b.to_set());
}

/// Whether the sorted `v` holds `x`.
pub fn contains_sorted(v: &Vec<String>, x: &Vec<char>) -> (r: bool)
    requires
        is_sorted(views(v@)),
    ensures
        r == views(v@).contains(x@),
{
    let mut lo: usize = 0;
    let mut hi: usize = v.len();
    while lo < hi
        invariant
            lo <= hi <= v.len(),
            is_sorted(views(v@)),
            forall|j: int| 0 <= j < lo ==> lex_lt(#[trigger] views(v@)[j], x@),
            forall|j: int| hi <= j < v.len() ==> lex_lt(x@, #[trigger] views(v@)[j]),
        decreases hi - lo,
    {
        let mid = lo + (hi - lo) / 2;
        let m = chars_of(v[mid].as_str());
        assert(views(v@)[mid as int] == m@);
        if lex_less(&m, x) {
            assert forall|j: int| 0 <= j < mid + 1 implies lex_lt(#[trigger] views(v@)[j], x@) by {
                if j < mid {
                    assert(lex_le(views(v@)[j], views(v@)[mid as int]));
                    if views(v@)[j] != m@ {
                        lemma_lex_transitive(views(v@)[j], m@, x@);
                    }
                }
            }
            lo = mid + 1;
        } else if lex_less(x, &m) {
            assert forall|j: int| mid <= j < v.len() implies lex_lt(x@, #[trigger] views(v@)[j]) by {
                if j > mid {
                    assert(lex_le(views(v@)[mid as int], views(v@)[j]));
                    if views(v@)[j] != m@ {
                        lemma_lex_transitive(x@, m@, views(v@)[j]);
                    }
                }
            }
            hi = mid;
        } else {
            proof {
                lemma_lex_trichotomy(m@, x@);
            }
            return true;
        }
    }
    assert forall|j: int| 0 <= j < v.len() implies views(v@)[j] != x@ by {
        lemma_lex_irreflexive(x@);
    }
    false
}

/// The sorted `v` without its repetitions.
pub fn dedup_sorted(v: &Vec<String>) -> (r: Vec<String>)
    requires
        is_sorted(views(v@)),
    ensures
        is_strictly_sorted(views(r@)),
        views(r@).to_set() == views(v@).to_set(),
{
    let mut r: Vec<String> = Vec::new();
    let mut i: usize = 0;
    while i < v.len()
        invariant
            i <= v.len(),
            is_sorted(views(v@)),
            is_strictly_sorted(views(r@)),
            i > 0 ==> r.len() > 0 && views(r@).last() == views(v@)[i - 1],
            i == 0 ==> r.len() == 0,
            forall|x: Seq<char>| #[trigger]
                views(r@).contains(x) <==> views(v@).subrange(0, i as int).contains(x),
        decreases v.len() - i,
    {
        let ghost before = views(r@);
        let ghost seen = views(v@).subrange(0, i as int);
        assert(views(v@).subrange(0, i + 1) =~= seen.push(views(v@)[i as int]));
        if r.len() == 0 || r[r.len() - 1] != v[i] {
            let s = v[i].clone();
            r.push(s);
            assert(views(r@) =~= before.push(views(v@)[i as int]));
            proof {
                if before.len() > 0 {
                    assert(lex_le(views(v@)[i - 1], views(v@)[i as int]));
                    assert(lex_lt(before.last(), views(v@)[i as int]));
                    assert forall|a: int, b: int|
                        0 <= a < b < views(r@).len() implies lex_lt(
                        views(r@)[a],
                        views(r@)[b],
                    ) by {
                        if b == before.len() && a < before.len() - 1 {
                            lemma_lex_transitive(before[a], before.last(), views(v@)[i as int]);
                        }
                    }
                }
            }
        } else {
            assert(views(r@).last() == views(v@)[i as int]);
        }
        assert forall|x: Seq<char>| #[trigger]
            views(r@).contains(x) <==> seen.push(views(v@)[i as int]).contains(x) by {
            if seen.push(views(v@)[i as int]).contains(x) && !seen.contains(x) {
                assert(views(r@)[views(r@).len() - 1] == x);
            }
            if views(r@).contains(x) && !before.contains(x) {
                assert(seen.push(views(v@)[i as int])[i as int] == x);
            }
            if seen.contains(x) {
                let k = choose|k: int| 0 <= k < seen.len() && seen[k] == x;
                assert(seen.push(views(v@)[i as int])[k] == x);
            }
            if before.contains(x) {
                let k = choose|k: int| 0 <= k < before.len() && before[k] == x;
                assert(views(r@)[k] == x);
            }
        }
        i += 1;
    }
    assert(views(v@).subrange(0, i as int) =~= views(v@));
    assert(views(r@).to_set() =~= views(v@).to_set());
    r
}

} // verus!
