//! The suffix collapse engine: drops domains that a registrable suffix in the
//! same set already covers, and folds `www.` aliases.

use vstd::prelude::*;
use crate::text::{chars_of, concat_chars, copy_range, has_prefix_at, string_of};
use crate::normalize::www;
use crate::order::{
    contains_sorted, dedup_sorted, is_strictly_sorted, lemma_same_members, sorted_strings, views,
};

verus! {

broadcast use vstd::string::group_string_axioms;

/// The number of dots in `s`.
pub open spec fn dot_count(s: Seq<char>) -> nat
    decreases s.len(),
{
    if s.len() == 0 {
        0
    } else {
        (if s[0] == '.' {
            1nat
        } else {
            0nat
        }) + dot_count(s.drop_first())
    }
}

/// The registrable suffix of `d`: its last two dot-separated labels.
pub open spec fn suffix_key(d: Seq<char>) -> Seq<char>
    decreases d.len(),
{
    if d.len() == 0 || dot_count(d) <= 1 {
        d
    } else {
        suffix_key(d.drop_first())
    }
}

/// `d` without one leading `www.` label.
pub open spec fn strip_www(d: Seq<char>) -> Seq<char> {
    if www().is_prefix_of(d) {
        d.skip(4)
    } else {
        d
    }
}

/// The set holds the suffix `k` itself or its `www.` form, so that `k`
/// covers its whole group.
pub open spec fn covered(s: Set<Seq<char>>, k: Seq<char>) -> bool {
    s.contains(k) || s.contains(www() + k)
}

/// What member `d` of `s` becomes: the suffix of its group where that group
/// is covered, else `d` without a leading `www.`.
pub open spec fn collapsed_one(s: Set<Seq<char>>, d: Seq<char>) -> Seq<char> {
    if covered(s, suffix_key(d)) {
        suffix_key(d)
    } else {
        strip_www(d)
    }
}

/// The collapse of `s`: each member with at least two labels becomes its
/// collapsed form; single-label members are dropped.
pub open spec fn collapse(s: Set<Seq<char>>) -> Set<Seq<char>> {
    Set::new(|x: Seq<char>| exists|d: Seq<char>| #[trigger] s.contains(d) && dot_count(d) >= 1 && collapsed_one(s, d) == x)
}

fn dot_count_of(v: &Vec<char>) -> (c: usize)
    ensures
        c == dot_count(v@),
{
    let n = v.len();
    let mut c: usize = 0;
    let mut i: usize = n;
    assert(v@.subrange(0, n as int) =~= v@);
    while i > 0
        invariant
            i <= n,
            n == v.len(),
            c <= n - i,
            dot_count(v@) == dot_count(v@.subrange(0, i as int)) + c,
        decreases i,
    {
        proof {
            lemma_dot_count_split(v@.subrange(0, i as int), i - 1);
            assert(v@.subrange(0, i as int).subrange(0, i - 1) =~= v@.subrange(0, i - 1));
        }
        if v[i - 1] == '.' {
            c += 1;
        }
        i -= 1;
    }
    assert(v@.subrange(0, 0) =~= Seq::<char>::empty());
    c
}

/// Counting dots up to the last character, then that one.
proof fn lemma_dot_count_split(s: Seq<char>, k: int)
    requires
        k == s.len() - 1,
        s.len() > 0,
    ensures
        dot_count(s) == dot_count(s.subrange(0, k)) + (if s[k] == '.' {
            1nat
        } else {
            0nat
        }),
    decreases s.len(),
{
    if s.len() > 1 {
        lemma_dot_count_split(s.drop_first(), k - 1);
        assert(s.drop_first().subrange(0, k - 1) =~= s.subrange(0, k).drop_first());
    } else {
        assert(s.subrange(0, k) =~= Seq::<char>::empty());
        assert(s.drop_first() =~= Seq::<char>::empty());
    }
}

fn suffix_key_of(v: &Vec<char>, dots: usize) -> (r: Vec<char>)
    requires
        dots == dot_count(v@),
    ensures
        r@ == suffix_key(v@),
{
    let n = v.len();
    let mut i: usize = 0;
    let mut left: usize = dots;
    assert(v@.skip(0) =~= v@);
    while left > 1
        invariant
            i <= n,
            n == v.len(),
            left == dot_count(v@.skip(i as int)),
            suffix_key(v@) == suffix_key(v@.skip(i as int)),
        decreases n - i,
    {
        if i == n {
            assert(v@.skip(i as int) =~= Seq::<char>::empty());
        }
        assert(v@.skip(i as int).drop_first() =~= v@.skip(i + 1));
        if v[i] == '.' {
            left -= 1;
        }
        i += 1;
    }
    assert(v@.skip(i as int) =~= v@.subrange(i as int, n as int));
    copy_range(v, i, n)
}

fn strip_www_chars(v: &Vec<char>) -> (r: Vec<char>)
    ensures
        r@ == strip_www(v@),
{
    let n = v.len();
    let w = vec!['w', 'w', 'w', '.'];
    assert(v@.subrange(0, n as int) =~= v@);
    if has_prefix_at(v, 0, &w) {
        assert(v@.skip(4) =~= v@.subrange(4, n as int));
        copy_range(v, 4, n)
    } else {
        copy_range(v, 0, n)
    }
}

/// Collapses a domain set: where a group of domains with the same last two
/// labels holds that suffix or its `www.` form, the group becomes the suffix
/// alone; otherwise each member stays, without a leading `www.`. Single-label
/// entries are dropped. The result is sorted and free of repetitions.
pub fn filter_subdomain(domains: &Vec<String>) -> (r: Vec<String>)
    ensures
        is_strictly_sorted(views(r@)),
        views(r@).to_set() == collapse(views(domains@).to_set()),
{
    let sorted = sorted_strings(domains);
    let ghost all = views(sorted@);
    let ghost s = all.to_set();
    proof {
        lemma_same_members(views(sorted@), views(domains@));
    }
    let w = vec!['w', 'w', 'w', '.'];
    let mut out: Vec<String> = Vec::new();
    let mut i: usize = 0;
    while i < sorted.len()
        invariant
            i <= sorted.len(),
            all == views(sorted@),
            s == all.to_set(),
            w@ == www(),
            crate::order::is_sorted(all),
            forall|x: Seq<char>| #[trigger]
                views(out@).contains(x) <==> exists|j: int|
                    0 <= j < i && dot_count(all[j]) >= 1 && collapsed_one(s, #[trigger] all[j]) == x,
        decreases sorted.len() - i,
    {
        let d = chars_of(sorted[i].as_str());
        assert(d@ == all[i as int]);
        let dots = dot_count_of(&d);
        let ghost before = views(out@);
        if dots >= 1 {
            let k = suffix_key_of(&d, dots);
            let wk = concat_chars(&w, &k);
            let image = if contains_sorted(&sorted, &k) || contains_sorted(&sorted, &wk) {
                k
            } else {
                strip_www_chars(&d)
            };
            assert(image@ == collapsed_one(s, d@));
            out.push(string_of(image.as_slice()));
            assert(views(out@) =~= before.push(image@));
            assert forall|x: Seq<char>| #[trigger]
                views(out@).contains(x) <==> exists|j: int|
                    0 <= j < i + 1 && dot_count(all[j]) >= 1 && collapsed_one(s, #[trigger] all[j]) == x by {
                if views(out@).contains(x) && !before.contains(x) {
                    assert(views(out@)[before.len() as int] == x);
                    assert(dot_count(all[i as int]) >= 1 && collapsed_one(s, all[i as int]) == x);
                }
                if before.contains(x) {
                    let k = choose|k: int| 0 <= k < before.len() && before[k] == x;
                    assert(views(out@)[k] == x);
                }
                if exists|j: int|
                    0 <= j < i + 1 && dot_count(all[j]) >= 1 && collapsed_one(s, #[trigger] all[j]) == x {
                    let j = choose|j: int|
                        0 <= j < i + 1 && dot_count(all[j]) >= 1 && collapsed_one(s, #[trigger] all[j]) == x;
                    if j == i {
                        assert(views(out@)[before.len() as int] == x);
                    }
                }
            }
        } else {
            assert forall|x: Seq<char>| #[trigger]
                views(out@).contains(x) <==> exists|j: int|
                    0 <= j < i + 1 && dot_count(all[j]) >= 1 && collapsed_one(s, #[trigger] all[j]) == x by {
                if exists|j: int|
                    0 <= j < i + 1 && dot_count(all[j]) >= 1 && collapsed_one(s, #[trigger] all[j]) == x {
                    let j = choose|j: int|
                        0 <= j < i + 1 && dot_count(all[j]) >= 1 && collapsed_one(s, #[trigger] all[j]) == x;
                    assert(j != i);
                }
            }
        }
        i += 1;
    }
    let ordered = sorted_strings(&out);
    let r = dedup_sorted(&ordered);
    proof {
        lemma_same_members(views(ordered@), views(out@));
        assert forall|x: Seq<char>| #[trigger] views(out@).to_set().contains(x) <==> collapse(s).contains(x) by {
            if collapse(s).contains(x) {
                let d = choose|d: Seq<char>| #[trigger] s.contains(d) && dot_count(d) >= 1 && collapsed_one(s, d) == x;
                let j = choose|j: int| 0 <= j < all.len() && all[j] == d;
                assert(dot_count(all[j]) >= 1 && collapsed_one(s, all[j]) == x);
            }
            if views(out@).contains(x) {
                let j = choose|j: int|
                    0 <= j < i && dot_count(all[j]) >= 1 && collapsed_one(s, #[trigger] all[j]) == x;
                assert(s.contains(all[j]));
            }
        }
        assert(views(out@).to_set() =~= collapse(s));
    }
    r
}


/// Where a group is not covered, no member still begins with `www.` once one
/// `www.` is gone: the sets on which a second collapse changes nothing.
pub open spec fn folds_once(s: Set<Seq<char>>) -> bool {
    forall|d: Seq<char>|
        #![trigger s.contains(d)]
        s.contains(d) && dot_count(d) >= 1 && !covered(s, suffix_key(d)) ==> !www().is_prefix_of(
            strip_www(d),
        )
}

/// The dots of two strings put together add up.
pub proof fn lemma_dot_count_concat(a: Seq<char>, b: Seq<char>)
    ensures
        dot_count(a + b) == dot_count(a) + dot_count(b),
    decreases a.len(),
{
    if a.len() > 0 {
        lemma_dot_count_concat(a.drop_first(), b);
        assert((a + b).drop_first() =~= a.drop_first() + b);
    } else {
        assert(a + b =~= b);
    }
}

proof fn lemma_www_facts()
    ensures
        dot_count(www()) == 1,
        www().len() == 4,
        www().last() == '.',
{
    reveal_with_fuel(dot_count, 5);
    assert(www().drop_first() =~= seq!['w', 'w', '.']);
    assert(www().drop_first().drop_first() =~= seq!['w', '.']);
    assert(www().drop_first().drop_first().drop_first() =~= seq!['.']);
    assert(www().drop_first().drop_first().drop_first().drop_first() =~= Seq::<char>::empty());
}

/// The suffix of a domain with a dot holds exactly one dot, and is its own suffix.
pub proof fn lemma_suffix_key_one_dot(d: Seq<char>)
    requires
        dot_count(d) >= 1,
    ensures
        dot_count(suffix_key(d)) == 1,
        suffix_key(suffix_key(d)) == suffix_key(d),
    decreases d.len(),
{
    if dot_count(d) > 1 {
        lemma_suffix_key_one_dot(d.drop_first());
    }
}

/// Labels in front of a domain with a dot do not change its suffix.
pub proof fn lemma_suffix_key_after_labels(p: Seq<char>, x: Seq<char>)
    requires
        dot_count(x) >= 1,
        p.len() == 0 || p.last() == '.',
    ensures
        suffix_key(p + x) == suffix_key(x),
    decreases p.len(),
{
    if p.len() == 0 {
        assert(p + x =~= x);
    } else {
        lemma_dot_count_split(p, p.len() - 1);
        lemma_dot_count_concat(p, x);
        assert((p + x).drop_first() =~= p.drop_first() + x);
        if p.len() > 1 {
            assert(p.drop_first().last() == p.last());
        }
        lemma_suffix_key_after_labels(p.drop_first(), x);
    }
}

/// A collapsed member keeps a dot and the suffix it came from.
pub proof fn lemma_collapsed_one_keeps_suffix(s: Set<Seq<char>>, d: Seq<char>)
    requires
        s.contains(d),
        dot_count(d) >= 1,
    ensures
        dot_count(collapsed_one(s, d)) >= 1,
        suffix_key(collapsed_one(s, d)) == suffix_key(d),
{
    lemma_suffix_key_one_dot(d);
    if !covered(s, suffix_key(d)) && www().is_prefix_of(d) {
        let x = d.skip(4);
        lemma_www_facts();
        assert(d =~= www() + x);
        lemma_dot_count_concat(www(), x);
        if dot_count(x) == 0 {
            assert(suffix_key(d) == d);
        }
        lemma_suffix_key_after_labels(www(), x);
    }
}

/// A group is covered after the collapse exactly where it was before.
proof fn lemma_covered_kept(s: Set<Seq<char>>, d: Seq<char>)
    requires
        folds_once(s),
        s.contains(d),
        dot_count(d) >= 1,
    ensures
        covered(collapse(s), suffix_key(d)) == covered(s, suffix_key(d)),
{
    let k = suffix_key(d);
    let t = collapse(s);
    lemma_suffix_key_one_dot(d);
    lemma_www_facts();
    lemma_dot_count_concat(www(), k);
    lemma_suffix_key_after_labels(www(), k);
    if covered(s, k) {
        if s.contains(k) {
            assert(collapsed_one(s, k) == k);
            assert(t.contains(k));
        } else {
            assert(collapsed_one(s, www() + k) == k);
            assert(t.contains(k));
        }
    } else {
        if t.contains(k) {
            let e = choose|e: Seq<char>| #[trigger] s.contains(e) && dot_count(e) >= 1 && collapsed_one(s, e) == k;
            lemma_collapsed_one_keeps_suffix(s, e);
            lemma_suffix_key_one_dot(e);
            if www().is_prefix_of(e) {
                assert(e =~= www() + k);
            } else {
                assert(e == k);
            }
        }
        if t.contains(www() + k) {
            let e = choose|e: Seq<char>| #[trigger] s.contains(e) && dot_count(e) >= 1 && collapsed_one(s, e) == www() + k;
            lemma_collapsed_one_keeps_suffix(s, e);
            lemma_suffix_key_one_dot(e);
            assert(www().is_prefix_of(www() + k));
        }
    }
}

/// Collapsing a collapsed set changes nothing, on every set where no
/// uncovered member begins with `www.www.`.
pub proof fn lemma_collapse_idempotent(s: Set<Seq<char>>)
    requires
        folds_once(s),
    ensures
        collapse(collapse(s)) == collapse(s),
{
    let t = collapse(s);
    assert forall|y: Seq<char>| collapse(t).contains(y) implies t.contains(y) by {
        let x = choose|x: Seq<char>| #[trigger] t.contains(x) && dot_count(x) >= 1 && collapsed_one(t, x) == y;
        let d = choose|d: Seq<char>| #[trigger] s.contains(d) && dot_count(d) >= 1 && collapsed_one(s, d) == x;
        lemma_collapsed_one_keeps_suffix(s, d);
        lemma_covered_kept(s, d);
        lemma_suffix_key_one_dot(d);
    }
    assert forall|x: Seq<char>| t.contains(x) implies collapse(t).contains(x) by {
        let d = choose|d: Seq<char>| #[trigger] s.contains(d) && dot_count(d) >= 1 && collapsed_one(s, d) == x;
        lemma_collapsed_one_keeps_suffix(s, d);
        lemma_covered_kept(s, d);
        lemma_suffix_key_one_dot(d);
        assert(collapsed_one(t, x) == x);
    }
    assert(collapse(t) =~= t);
}

} // verus!
