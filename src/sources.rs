//! From downloaded list texts to a domain set.

use vstd::prelude::*;
use crate::text::{chars_of, copy_range, string_of};
use crate::normalize::{filter_domain, normalized, opt_view};
use crate::order::{dedup_sorted, is_strictly_sorted, lemma_same_members, sorted_strings, views};
use crate::collapse::{collapse, filter_subdomain};

verus! {

broadcast use vstd::string::group_string_axioms;

/// Positions `i` to `j` of `t` are one line: it begins at the start or after
/// a newline, ends at the end or at a newline, and holds no newline.
pub open spec fn is_line_of(t: Seq<char>, i: int, j: int) -> bool {
    &&& 0 <= i <= j <= t.len()
    &&& (i == 0 || t[i - 1] == '\n')
    &&& (j == t.len() || t[j] == '\n')
    &&& forall|k: int| i <= k < j ==> t[k] != '\n'
}

/// Line `i`..`j` of `t` normalizes to `x`.
pub open spec fn line_gives(t: Seq<char>, i: int, j: int, x: Seq<char>) -> bool {
    is_line_of(t, i, j) && normalized(t.subrange(i, j)) == Some(x)
}

/// Some line of `t` normalizes to `x`.
pub open spec fn in_text(t: Seq<char>, x: Seq<char>) -> bool {
    exists|i: int, j: int| #[trigger] line_gives(t, i, j, x)
}

/// Some line of `t` that begins before `start` normalizes to `x`.
pub open spec fn in_text_before(t: Seq<char>, start: int, x: Seq<char>) -> bool {
    exists|i: int, j: int| i < start && #[trigger] line_gives(t, i, j, x)
}

/// Some line of one of the first `n` texts normalizes to `x`.
pub open spec fn in_texts(texts: Seq<Seq<char>>, n: int, x: Seq<char>) -> bool {
    exists|m: int| 0 <= m < n && #[trigger] in_text(texts[m], x)
}

/// The canonical domains that the lines of the texts hold.
pub open spec fn listed_domains(texts: Seq<Seq<char>>) -> Set<Seq<char>> {
    Set::new(|x: Seq<char>| in_texts(texts, texts.len() as int, x))
}

/// The end of the line that begins at `from`: the next newline, or the end.
fn line_end(v: &Vec<char>, from: usize) -> (j: usize)
    requires
        from <= v.len(),
    ensures
        from <= j <= v.len(),
        j == v.len() || v@[j as int] == '\n',
        forall|k: int| from <= k < j ==> v@[k] != '\n',
{
    let mut j: usize = from;
    while j < v.len() && v[j] != '\n'
        invariant
            from <= j <= v.len(),
            forall|k: int| from <= k < j ==> v@[k] != '\n',
        decreases v.len() - j,
    {
        j += 1;
    }
    j
}

/// Taking in the line `start`..`e` adds what it normalizes to, and, where
/// the line is the last, covers all lines.
proof fn lemma_take_line(t: Seq<char>, start: int, e: int, x: Seq<char>)
    requires
        is_line_of(t, start, e),
    ensures
        in_text_before(t, e + 1, x) == (in_text_before(t, start, x) || normalized(
            t.subrange(start, e),
        ) == Some(x)),
        e == t.len() ==> in_text_before(t, e + 1, x) == in_text(t, x),
{
    if in_text_before(t, e + 1, x) {
        let (i, j) = choose|i: int, j: int| i < e + 1 && #[trigger] line_gives(t, i, j, x);
        if i > start {
            assert(t[i - 1] != '\n');
        }
        if i == start {
            if j < e {
                assert(t[j] != '\n');
            } else if e < j {
                assert(t[e] != '\n');
            }
        }
    }
    if normalized(t.subrange(start, e)) == Some(x) {
        assert(line_gives(t, start, e, x));
    }
    if in_text_before(t, start, x) {
        let (i, j) = choose|i: int, j: int| i < start && #[trigger] line_gives(t, i, j, x);
        assert(line_gives(t, i, j, x));
    }
    if e == t.len() && in_text(t, x) {
        let (i, j) = choose|i: int, j: int| #[trigger] line_gives(t, i, j, x);
        assert(i < e + 1 && line_gives(t, i, j, x));
    }
}

proof fn lemma_next_text(texts: Seq<Seq<char>>, n: int, x: Seq<char>)
    requires
        0 <= n < texts.len(),
    ensures
        in_texts(texts, n + 1, x) == (in_texts(texts, n, x) || in_text(texts[n], x)),
{
    if in_texts(texts, n + 1, x) {
        let m = choose|m: int| 0 <= m < n + 1 && #[trigger] in_text(texts[m], x);
        if m < n {
            assert(in_texts(texts, n, x));
        }
    }
    if in_texts(texts, n, x) {
        let m = choose|m: int| 0 <= m < n && #[trigger] in_text(texts[m], x);
        assert(0 <= m < n + 1 && in_text(texts[m], x));
    }
    if in_text(texts[n], x) {
        assert(0 <= n < n + 1 && in_text(texts[n], x));
    }
}

/// The canonical domains of all lines of the texts, sorted and without
/// repetitions; collapsed unless `skip_collapse`.
pub fn domains_from_texts(texts: &Vec<String>, skip_collapse: bool) -> (r: Vec<String>)
    ensures
        is_strictly_sorted(views(r@)),
        views(r@).to_set() == if skip_collapse {
            listed_domains(views(texts@))
        } else {
            collapse(listed_domains(views(texts@)))
        },
{
    let ghost tv = views(texts@);
    let mut found: Vec<String> = Vec::new();
    let mut n: usize = 0;
    while n < texts.len()
        invariant
            n <= texts.len(),
            tv == views(texts@),
            forall|x: Seq<char>| #[trigger] views(found@).contains(x) <==> in_texts(tv, n as int, x),
        decreases texts.len() - n,
    {
        let v = chars_of(texts[n].as_str());
        assert(v@ == tv[n as int]);
        let mut start: usize = 0;
        loop
            invariant_except_break
                start <= v.len(),
                start == 0 || v@[start - 1] == '\n',
                forall|x: Seq<char>| #[trigger]
                    views(found@).contains(x) <==> in_texts(tv, n as int, x) || in_text_before(
                        v@,
                        start as int,
                        x,
                    ),
            invariant
                n < texts.len(),
                tv == views(texts@),
                v@ == tv[n as int],
            ensures
                forall|x: Seq<char>| #[trigger]
                    views(found@).contains(x) <==> in_texts(tv, n as int, x) || in_text(v@, x),
            decreases v.len() - start,
        {
            let e = line_end(&v, start);
            let line = copy_range(&v, start, e);
            let s = string_of(line.as_slice());
            let got = filter_domain(s.as_str());
            let ghost before = views(found@);
            match got {
                Some(d) => {
                    found.push(d);
                    assert(views(found@) =~= before.push(d@));
                },
                None => {},
            }
            assert forall|x: Seq<char>| #[trigger]
                views(found@).contains(x) <==> in_texts(tv, n as int, x) || in_text_before(
                    v@,
                    e + 1,
                    x,
                ) by {
                lemma_take_line(v@, start as int, e as int, x);
                if views(found@).contains(x) && !before.contains(x) {
                    assert(views(found@)[before.len() as int] == x);
                }
                if before.contains(x) {
                    let k = choose|k: int| 0 <= k < before.len() && before[k] == x;
                    assert(views(found@)[k] == x);
                }
                if opt_view(got) == Some(x) {
                    assert(views(found@)[before.len() as int] == x);
                }
            }
            if e == v.len() {
                assert forall|x: Seq<char>| #[trigger]
                    views(found@).contains(x) <==> in_texts(tv, n as int, x) || in_text(v@, x) by {
                    lemma_take_line(v@, start as int, e as int, x);
                }
                break;
            }
            start = e + 1;
        }
        assert forall|x: Seq<char>| #[trigger]
            views(found@).contains(x) <==> in_texts(tv, n + 1, x) by {
            lemma_next_text(tv, n as int, x);
        }
        n += 1;
    }
    proof {
        assert(views(found@).to_set() =~= listed_domains(tv));
    }
    if skip_collapse {
        let ordered = sorted_strings(&found);
        proof {
            lemma_same_members(views(ordered@), views(found@));
        }
        dedup_sorted(&ordered)
    } else {
        filter_subdomain(&found)
    }
}


/// `s` cut at each newline: one piece more than it has newlines.
pub open spec fn pieces(s: Seq<char>) -> Seq<Seq<char>>
    decreases s.len(),
{
    if s.len() == 0 {
        seq![Seq::empty()]
    } else {
        let p = pieces(s.drop_last());
        if s.last() == '\n' {
            p.push(Seq::empty())
        } else {
            p.update(p.len() - 1, p.last().push(s.last()))
        }
    }
}

/// `l` without one carriage return at its end.
pub open spec fn without_cr(l: Seq<char>) -> Seq<char> {
    if l.len() > 0 && l.last() == '\r' {
        l.drop_last()
    } else {
        l
    }
}

/// The lines of `t` as `str::lines` yields them: cut at each newline, a
/// carriage return right before a newline dropped, and no empty line after a
/// final newline.
pub open spec fn text_lines(t: Seq<char>) -> Seq<Seq<char>> {
    let p = pieces(t);
    let q = Seq::new(
        p.len(),
        |i: int|
            if i < p.len() - 1 {
                without_cr(p[i])
            } else {
                p[i]
            },
    );
    if t.len() == 0 {
        Seq::empty()
    } else if t.last() == '\n' {
        q.drop_last()
    } else {
        q
    }
}

/// A line that begins with `#`.
pub open spec fn is_comment_line(l: Seq<char>) -> bool {
    l.len() > 0 && l[0] == '#'
}

proof fn lemma_pieces_nonempty(s: Seq<char>)
    ensures
        pieces(s).len() >= 1,
    decreases s.len(),
{
    if s.len() > 0 {
        lemma_pieces_nonempty(s.drop_last());
    }
}

fn pieces_of(v: &Vec<char>) -> (r: Vec<Vec<char>>)
    ensures
        r@.map_values(|p: Vec<char>| p@) == pieces(v@),
{
    let mut done: Vec<Vec<char>> = Vec::new();
    let mut cur: Vec<char> = Vec::new();
    let mut i: usize = 0;
    assert(v@.subrange(0, 0) =~= Seq::<char>::empty());
    assert(done@.map_values(|p: Vec<char>| p@).push(cur@) =~= pieces(Seq::<char>::empty()));
    while i < v.len()
        invariant
            i <= v.len(),
            done@.map_values(|p: Vec<char>| p@).push(cur@) == pieces(v@.subrange(0, i as int)),
        decreases v.len() - i,
    {
        let ghost pre = v@.subrange(0, i as int);
        assert(v@.subrange(0, i + 1).drop_last() =~= pre);
        assert(v@.subrange(0, i + 1).last() == v@[i as int]);
        proof {
            lemma_pieces_nonempty(pre);
        }
        let ghost dv = done@.map_values(|p: Vec<char>| p@);
        if v[i] == '\n' {
            let finished_piece = cur;
            done.push(finished_piece);
            cur = Vec::new();
            assert(done@.map_values(|p: Vec<char>| p@) =~= dv.push(finished_piece@));
            assert(done@.map_values(|p: Vec<char>| p@).push(cur@) =~= pieces(
                v@.subrange(0, i + 1),
            ));
        } else {
            cur.push(v[i]);
            assert(done@.map_values(|p: Vec<char>| p@).push(cur@) =~= pieces(
                v@.subrange(0, i + 1),
            ));
        }
        i += 1;
    }
    assert(v@.subrange(0, i as int) =~= v@);
    let ghost dv = done@.map_values(|p: Vec<char>| p@);
    done.push(cur);
    assert(done@.map_values(|p: Vec<char>| p@) =~= dv.push(cur@));
    done
}

/// The lines of `text`, as `str::lines` yields them.
pub fn split_lines(text: &str) -> (r: Vec<String>)
    ensures
        views(r@) == text_lines(text@),
{
    let v = chars_of(text);
    let p = pieces_of(&v);
    let ghost pv = p@.map_values(|x: Vec<char>| x@);
    proof {
        lemma_pieces_nonempty(v@);
    }
    let ghost q = Seq::new(
        pv.len(),
        |i: int|
            if i < pv.len() - 1 {
                without_cr(pv[i])
            } else {
                pv[i]
            },
    );
    let mut r: Vec<String> = Vec::new();
    if v.len() == 0 {
        assert(views(r@) =~= text_lines(text@));
        return r;
    }
    let keep: usize = if v[v.len() - 1] == '\n' {
        p.len() - 1
    } else {
        p.len()
    };
    let mut i: usize = 0;
    while i < keep
        invariant
            v@ == text@,
            v.len() > 0,
            pv == p@.map_values(|x: Vec<char>| x@),
            pv.len() == p.len(),
            p.len() >= 1,
            keep <= p.len(),
            q.len() == pv.len(),
            forall|k: int| 0 <= k < q.len() ==> #[trigger] q[k] == if k < pv.len() - 1 {
                without_cr(pv[k])
            } else {
                pv[k]
            },
            i <= keep,
            views(r@) == q.subrange(0, i as int),
        decreases keep - i,
    {
        let piece = &p[i];
        let n = piece.len();
        let line = if i + 1 < p.len() && n > 0 && piece[n - 1] == '\r' {
            copy_range(piece, 0, n - 1)
        } else {
            copy_range(piece, 0, n)
        };
        assert(piece@ == pv[i as int]);
        assert(piece@.subrange(0, n as int) =~= piece@);
        assert(piece@.drop_last() =~= piece@.subrange(0, n - 1));
        assert(line@ == q[i as int]);
        let ghost before = views(r@);
        r.push(string_of(line.as_slice()));
        assert(views(r@) =~= before.push(line@));
        assert(q.subrange(0, i + 1) =~= q.subrange(0, i as int).push(q[i as int]));
        i += 1;
    }
    proof {
        if v@.last() == '\n' {
            assert(views(r@) =~= q.drop_last());
        } else {
            assert(views(r@) =~= q);
        }
    }
    r
}

/// The entries of a source list: its lines, but those that begin with `#`.
pub fn source_entries(text: &str) -> (r: Vec<String>)
    ensures
        views(r@) == text_lines(text@).filter(|l: Seq<char>| !is_comment_line(l)),
{
    let lines = split_lines(text);
    let ghost lv = views(lines@);
    let mut r: Vec<String> = Vec::new();
    let mut i: usize = 0;
    while i < lines.len()
        invariant
            i <= lines.len(),
            lv == views(lines@),
            lv == text_lines(text@),
            views(r@) == lv.subrange(0, i as int).filter(|l: Seq<char>| !is_comment_line(l)),
        decreases lines.len() - i,
    {
        proof {
            reveal(Seq::filter);
            assert(lv.subrange(0, i + 1).drop_last() =~= lv.subrange(0, i as int));
            assert(lv.subrange(0, i + 1).last() == lines@[i as int]@);
        }
        let l = &lines[i];
        let c = chars_of(l.as_str());
        let comment = c.len() > 0 && c[0] == '#';
        let ghost before = views(r@);
        if !comment {
            r.push(l.clone());
            assert(views(r@) =~= before.push(l@));
        }
        i += 1;
    }
    assert(lv.subrange(0, i as int) =~= lv);
    r
}

} // verus!
