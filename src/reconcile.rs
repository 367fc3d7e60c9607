//! The set reconciler: the blocklist minus the allowlist, in sorted order.

use vstd::prelude::*;
use crate::text::chars_of;
use crate::order::{
    contains_sorted, dedup_sorted, is_strictly_sorted, lemma_same_members, sorted_strings, views,
};

verus! {

broadcast use vstd::string::group_string_axioms;

/// The domains of `raw` that `allow` does not hold, sorted and without
/// repetitions.
pub fn blocklist(raw: &Vec<String>, allow: &Vec<String>) -> (r: Vec<String>)
    ensures
        is_strictly_sorted(views(r@)),
        views(r@).to_set() == views(raw@).to_set().difference(views(allow@).to_set()),
        forall|i: int|
            0 <= i < r.len() ==> views(raw@).contains(#[trigger] r@[i]@) && !views(
                allow@,
            ).contains(r@[i]@),
{
    let sorted_raw = sorted_strings(raw);
    let unique = dedup_sorted(&sorted_raw);
    let sorted_allow = sorted_strings(allow);
    let ghost u = views(unique@);
    proof {
        lemma_same_members(views(sorted_raw@), views(raw@));
        lemma_same_members(views(sorted_allow@), views(allow@));
        assert forall|x: Seq<char>| views(sorted_allow@).contains(x) == views(allow@).contains(x) by {
            assert(views(sorted_allow@).to_set().contains(x) == views(allow@).to_set().contains(x));
        }
        assert forall|x: Seq<char>| u.contains(x) == views(raw@).contains(x) by {
            assert(u.to_set().contains(x) == views(sorted_raw@).to_set().contains(x));
            assert(views(sorted_raw@).to_set().contains(x) == views(raw@).to_set().contains(x));
        }
    }
    let mut out: Vec<String> = Vec::new();
    let mut i: usize = 0;
    while i < unique.len()
        invariant
            i <= unique.len(),
            u == views(unique@),
            is_strictly_sorted(u),
            crate::order::is_sorted(views(sorted_allow@)),
            is_strictly_sorted(views(out@)),
            forall|x: Seq<char>| views(sorted_allow@).contains(x) == views(allow@).contains(x),
            forall|x: Seq<char>| u.contains(x) == views(raw@).contains(x),
            forall|a: int|
                0 <= a < out.len() ==> exists|j: int| 0 <= j < i && u[j] == #[trigger] views(out@)[a],
            forall|x: Seq<char>| #[trigger]
                views(out@).contains(x) <==> (u.subrange(0, i as int).contains(x) && !views(
                    allow@,
                ).contains(x)),
        decreases unique.len() - i,
    {
        let c = chars_of(unique[i].as_str());
        assert(c@ == u[i as int]);
        let ghost before = views(out@);
        assert(u.subrange(0, i + 1) =~= u.subrange(0, i as int).push(u[i as int]));
        if !contains_sorted(&sorted_allow, &c) {
            out.push(unique[i].clone());
            assert(views(out@) =~= before.push(u[i as int]));
            assert forall|a: int, b: int|
                0 <= a < b < views(out@).len() implies crate::order::lex_lt(
                views(out@)[a],
                views(out@)[b],
            ) by {
                if b == before.len() {
                    let j = choose|j: int| 0 <= j < i && u[j] == #[trigger] before[a];
                    assert(u[j] == views(out@)[a]);
                }
            }
            assert forall|a: int|
                0 <= a < out.len() implies exists|j: int|
                    0 <= j < i + 1 && u[j] == #[trigger] views(out@)[a] by {
                if a < before.len() {
                    let j = choose|j: int| 0 <= j < i && u[j] == #[trigger] before[a];
                    assert(u[j] == views(out@)[a]);
                } else {
                    assert(u[i as int] == views(out@)[a]);
                }
            }
            assert forall|x: Seq<char>| #[trigger]
                views(out@).contains(x) <==> (u.subrange(0, i + 1).contains(x) && !views(
                    allow@,
                ).contains(x)) by {
                if u.subrange(0, i + 1).contains(x) && !u.subrange(0, i as int).contains(x) {
                    assert(u.subrange(0, i + 1)[i as int] == u[i as int]);
                    assert(views(out@)[before.len() as int] == x);
                }
                if views(out@).contains(x) && !before.contains(x) {
                    assert(views(out@)[before.len() as int] == x);
                    assert(u.subrange(0, i + 1)[i as int] == x);
                }
                if before.contains(x) {
                    let k = choose|k: int| 0 <= k < before.len() && before[k] == x;
                    assert(views(out@)[k] == x);
                }
                if u.subrange(0, i as int).contains(x) {
                    let k = choose|k: int| 0 <= k < i && u.subrange(0, i as int)[k] == x;
                    assert(u.subrange(0, i + 1)[k] == x);
                }
            }
        } else {
            assert forall|a: int|
                0 <= a < out.len() implies exists|j: int|
                    0 <= j < i + 1 && u[j] == #[trigger] views(out@)[a] by {
                let j = choose|j: int| 0 <= j < i && u[j] == #[trigger] before[a];
                assert(u[j] == views(out@)[a]);
            }
            assert forall|x: Seq<char>| #[trigger]
                views(out@).contains(x) <==> (u.subrange(0, i + 1).contains(x) && !views(
                    allow@,
                ).contains(x)) by {
                if u.subrange(0, i as int).contains(x) {
                    let k = choose|k: int| 0 <= k < i && u.subrange(0, i as int)[k] == x;
                    assert(u.subrange(0, i + 1)[k] == x);
                }
                if u.subrange(0, i + 1).contains(x) && !u.subrange(0, i as int).contains(x) {
                    assert(u.subrange(0, i + 1)[i as int] == u[i as int]);
                }
            }
        }
        i += 1;
    }
    proof {
        assert(u.subrange(0, i as int) =~= u);
        assert forall|k: int| 0 <= k < out.len() implies views(raw@).contains(#[trigger] out@[k]@)
            && !views(allow@).contains(out@[k]@) by {
            assert(views(out@)[k] == out@[k]@);
            assert(views(out@).contains(out@[k]@));
        }
        assert(views(out@).to_set() =~= views(raw@).to_set().difference(views(allow@).to_set()));
    }
    out
}

} // verus!
