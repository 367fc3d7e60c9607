//! The normalizer: one raw source line to a canonical domain, or nothing.
//!
//! A line is trimmed, lower-cased, cut at adblock annotations, stripped of
//! wildcard and hosts-file or adblock anchor markers, converted to ASCII with
//! IDNA, checked against the domain-label grammar, and finally loses any
//! leading `www.` labels.

use vstd::prelude::*;
use crate::text::{
    chars_of, copy_range, has_prefix_at, is_space, is_space_char, skip_spaces, string_of, strip_all,
    strip_all_chars, trim, trim_chars, trim_start,
};

verus! {

broadcast use vstd::string::group_string_axioms;

/// What `str::to_lowercase` returns for a string.
pub uninterp spec fn lower_of(s: Seq<char>) -> Seq<char>;

/// What `idna::domain_to_ascii` returns for a string: `None` where it fails.
pub uninterp spec fn ascii_of(s: Seq<char>) -> Option<Seq<char>>;

/// The view of an optional string.
pub open spec fn opt_view(r: Option<String>) -> Option<Seq<char>> {
    match r {
        Some(s) => Some(s@),
        None => None,
    }
}

/// An ASCII lower-case letter, a digit, a hyphen or a dot.
pub open spec fn is_lower_ldh(c: char) -> bool {
    ('a' <= c <= 'z') || ('0' <= c <= '9') || c == '-' || c == '.'
}

/// A host name that IDNA passes through untouched: only lower-case letters,
/// digits, hyphens and dots; each label begins with a letter; a hyphen is
/// followed by a letter or a digit.
pub open spec fn is_plain_host(s: Seq<char>) -> bool {
    forall|i: int|
        0 <= i < s.len() ==> {
            &&& is_lower_ldh(#[trigger] s[i])
            &&& (i == 0 || s[i - 1] == '.') ==> ('a' <= s[i] <= 'z')
            &&& s[i] == '-' ==> (i + 1 < s.len() && s[i + 1] != '.' && s[i + 1] != '-')
        }
}

/// Relies on `str::to_lowercase`: the result depends on the characters alone,
/// and lower-case letters, digits, hyphens and dots have no other lower-case form.
#[verifier::external_body]
fn lowercase(s: &str) -> (r: String)
    ensures
        r@ == lower_of(s@),
        (forall|i: int| 0 <= i < s@.len() ==> is_lower_ldh(#[trigger] s@[i])) ==> r@ == s@,
{
    s.to_lowercase()
}

/// No ASCII upper-case letter.
pub open spec fn has_no_upper(s: Seq<char>) -> bool {
    forall|i: int| 0 <= i < s.len() ==> !('A' <= #[trigger] s[i] <= 'Z')
}

/// Relies on `idna::domain_to_ascii`: the result depends on the characters
/// alone; an input that `is_plain_host` admits (labels of lower-case letters,
/// digits and single hyphens, each beginning with a letter and not ending
/// with a hyphen) is handed back unchanged by its ASCII pass-through path;
/// and what it returns holds no upper-case ASCII letter, since upper-case
/// letters are mapped to lower case.
#[verifier::external_body]
fn domain_to_ascii(s: &str) -> (r: Option<String>)
    ensures
        opt_view(r) == ascii_of(s@),
        is_plain_host(s@) ==> opt_view(r) == Some(s@),
        r matches Some(a) ==> has_no_upper(a@),
{
    idna::domain_to_ascii(s).ok()
}


/// A character at which adblock annotations and options begin.
pub open spec fn is_annotation(c: char) -> bool {
    c == '#' || c == '^' || c == '$'
}

/// `s` up to, not including, its first annotation character.
pub open spec fn cut_annotations(s: Seq<char>) -> Seq<char>
    decreases s.len(),
{
    if s.len() == 0 || is_annotation(s[0]) {
        Seq::empty()
    } else {
        seq![s[0]] + cut_annotations(s.drop_first())
    }
}

/// `s` without its carriage returns.
pub open spec fn drop_returns(s: Seq<char>) -> Seq<char>
    decreases s.len(),
{
    if s.len() == 0 {
        Seq::empty()
    } else if s[0] == '\r' {
        drop_returns(s.drop_first())
    } else {
        seq![s[0]] + drop_returns(s.drop_first())
    }
}

/// A character of an IPv4 or IPv6 literal, or of a hosts-file address mask.
pub open spec fn is_hostmask_char(c: char) -> bool {
    ('0' <= c <= '9') || ('a' <= c <= 'f') || ('A' <= c <= 'F') || c == ':' || c == '.'
}

/// The length of the longest prefix of `s` made of address characters.
pub open spec fn hostmask_len(s: Seq<char>) -> nat
    decreases s.len(),
{
    if s.len() > 0 && is_hostmask_char(s[0]) {
        1 + hostmask_len(s.drop_first())
    } else {
        0
    }
}

/// `s` without its leading marker: an address followed by blanks (hosts-file
/// syntax, the blanks go too), or one of the adblock anchors `||`, `@@||`,
/// `@@|`, `*.` and `*`, the first that matches in that order.
pub open spec fn strip_marker(s: Seq<char>) -> Seq<char> {
    let k = hostmask_len(s) as int;
    if 0 < k < s.len() && is_space(s[k]) {
        trim_start(s.skip(k))
    } else if seq!['|', '|'].is_prefix_of(s) {
        s.skip(2)
    } else if seq!['@', '@', '|', '|'].is_prefix_of(s) {
        s.skip(4)
    } else if seq!['@', '@', '|'].is_prefix_of(s) {
        s.skip(3)
    } else if seq!['*', '.'].is_prefix_of(s) {
        s.skip(2)
    } else if seq!['*'].is_prefix_of(s) {
        s.skip(1)
    } else {
        s
    }
}

/// What remains of a lower-cased line before IDNA: cut at the first
/// annotation, carriage returns dropped, trimmed, leading `*.` and then `.`
/// repetitions removed, and the leading marker stripped.
pub open spec fn prepared(lowered: Seq<char>) -> Seq<char> {
    strip_marker(
        strip_all(
            strip_all(trim(drop_returns(cut_annotations(lowered))), seq!['*', '.']),
            seq!['.'],
        ),
    )
}

fn cut_annotations_chars(v: &Vec<char>) -> (r: Vec<char>)
    ensures
        r@ == cut_annotations(v@),
{
    let n = v.len();
    let mut out: Vec<char> = Vec::new();
    let mut i: usize = 0;
    assert(v@.skip(0) =~= v@);
    while i < n
        invariant
            i <= n,
            n == v.len(),
            cut_annotations(v@) == out@ + cut_annotations(v@.skip(i as int)),
        decreases n - i,
    {
        let c = v[i];
        if c == '#' || c == '^' || c == '$' {
            assert(out@ + cut_annotations(v@.skip(i as int)) =~= out@);
            return out;
        }
        let ghost before = out@;
        assert(v@.skip(i as int).drop_first() =~= v@.skip(i + 1));
        out.push(c);
        assert(before + cut_annotations(v@.skip(i as int)) =~= out@ + cut_annotations(
            v@.skip(i + 1),
        ));
        i += 1;
    }
    assert(out@ + cut_annotations(v@.skip(i as int)) =~= out@);
    out
}

fn drop_returns_chars(v: &Vec<char>) -> (r: Vec<char>)
    ensures
        r@ == drop_returns(v@),
{
    let n = v.len();
    let mut out: Vec<char> = Vec::new();
    let mut i: usize = 0;
    assert(v@.skip(0) =~= v@);
    while i < n
        invariant
            i <= n,
            n == v.len(),
            drop_returns(v@) == out@ + drop_returns(v@.skip(i as int)),
        decreases n - i,
    {
        let c = v[i];
        let ghost before = out@;
        assert(v@.skip(i as int).drop_first() =~= v@.skip(i + 1));
        if c != '\r' {
            out.push(c);
            assert(before + drop_returns(v@.skip(i as int)) =~= out@ + drop_returns(
                v@.skip(i + 1),
            ));
        }
        i += 1;
    }
    assert(out@ + drop_returns(v@.skip(i as int)) =~= out@);
    out
}

fn is_hostmask(c: char) -> (r: bool)
    ensures
        r == is_hostmask_char(c),
{
    ('0' <= c && c <= '9') || ('a' <= c && c <= 'f') || ('A' <= c && c <= 'F') || c == ':' || c
        == '.'
}

fn hostmask_len_of(v: &Vec<char>) -> (k: usize)
    ensures
        k == hostmask_len(v@),
        k <= v.len(),
{
    let n = v.len();
    let mut i: usize = 0;
    assert(v@.skip(0) =~= v@);
    while i < n && is_hostmask(v[i])
        invariant
            i <= n,
            n == v.len(),
            hostmask_len(v@) == i + hostmask_len(v@.skip(i as int)),
        decreases n - i,
    {
        assert(v@.skip(i as int).drop_first() =~= v@.skip(i + 1));
        i += 1;
    }
    i
}

fn strip_marker_chars(v: &Vec<char>) -> (r: Vec<char>)
    ensures
        r@ == strip_marker(v@),
{
    let n = v.len();
    let k = hostmask_len_of(v);
    assert(v@.subrange(0, n as int) =~= v@);
    if 0 < k && k < n && is_space_char(v[k]) {
        let i = skip_spaces(v, k);
        assert(v@.skip(k as int) =~= v@.subrange(k as int, n as int));
        assert(v@.skip(i as int) =~= v@.subrange(i as int, n as int));
        return copy_range(v, i, n);
    }
    let bars = vec!['|', '|'];
    let at_bars = vec!['@', '@', '|', '|'];
    let at_bar = vec!['@', '@', '|'];
    let star_dot = vec!['*', '.'];
    let star = vec!['*'];
    let cut: usize = if has_prefix_at(v, 0, &bars) {
        2
    } else if has_prefix_at(v, 0, &at_bars) {
        4
    } else if has_prefix_at(v, 0, &at_bar) {
        3
    } else if has_prefix_at(v, 0, &star_dot) {
        2
    } else if has_prefix_at(v, 0, &star) {
        1
    } else {
        0
    };
    assert(v@.skip(cut as int) =~= v@.subrange(cut as int, n as int));
    assert(v@.skip(0) =~= v@);
    copy_range(v, cut, n)
}

/// The steps between lower-casing and IDNA, on the lower-cased line.
pub fn prepare_line(lowered: &str) -> (r: String)
    ensures
        r@ == prepared(lowered@),
{
    let v = chars_of(lowered);
    let cut = cut_annotations_chars(&v);
    let plain = drop_returns_chars(&cut);
    let trimmed = trim_chars(&plain);
    let star_dot = vec!['*', '.'];
    let dot = vec!['.'];
    let unwild = strip_all_chars(&trimmed, &star_dot);
    let undotted = strip_all_chars(&unwild, &dot);
    let bare = strip_marker_chars(&undotted);
    string_of(bare.as_slice())
}


/// An ASCII letter or digit.
pub open spec fn is_alnum(c: char) -> bool {
    ('a' <= c <= 'z') || ('A' <= c <= 'Z') || ('0' <= c <= '9')
}

/// Position `i` of `s` fits the label grammar: a letter, a digit or a hyphen,
/// or a dot between two letters or digits.
pub open spec fn fits_at(s: Seq<char>, i: int) -> bool {
    ||| is_alnum(s[i]) || s[i] == '-'
    ||| s[i] == '.' && 0 < i < s.len() - 1 && is_alnum(s[i - 1]) && is_alnum(s[i + 1])
}

/// `s` is a dot-separated sequence of labels, each a letter or digit, or a
/// letter or digit, then letters, digits and hyphens, then a letter or digit.
pub open spec fn is_domain_syntax(s: Seq<char>) -> bool {
    &&& s.len() > 0
    &&& is_alnum(s[0])
    &&& is_alnum(s.last())
    &&& forall|i: int| 0 <= i < s.len() ==> #[trigger] fits_at(s, i)
}

/// The length of the longest prefix of `s` made of ASCII digits.
pub open spec fn digit_len(s: Seq<char>) -> nat
    decreases s.len(),
{
    if s.len() > 0 && '0' <= s[0] <= '9' {
        1 + digit_len(s.drop_first())
    } else {
        0
    }
}

/// `s` is `n` groups of one to three digits joined by single dots.
pub open spec fn dotted_groups(s: Seq<char>, n: nat) -> bool
    decreases n,
{
    let k = digit_len(s) as int;
    &&& 1 <= k <= 3
    &&& if n <= 1 {
        k == s.len()
    } else {
        k < s.len() && s[k] == '.' && dotted_groups(s.skip(k + 1), (n - 1) as nat)
    }
}

/// A dotted-quad IPv4 literal such as `127.0.0.1`.
pub open spec fn is_ipv4_literal(s: Seq<char>) -> bool {
    dotted_groups(s, 4)
}

/// `www.`, the label that is dropped from the front of a domain.
pub open spec fn www() -> Seq<char> {
    seq!['w', 'w', 'w', '.']
}

/// The last step, on what IDNA returned: rejected unless it fits the label
/// grammar; leading `www.` labels removed; rejected where what remains is an
/// IPv4 literal.
pub open spec fn finished(a: Seq<char>) -> Option<Seq<char>> {
    let d = strip_all(a, www());
    if is_domain_syntax(a) && !is_ipv4_literal(d) {
        Some(d)
    } else {
        None
    }
}

/// A character that opens a comment or a regular-expression rule.
pub open spec fn is_comment_start(c: char) -> bool {
    c == '#' || c == '!' || c == '/'
}

/// The canonical domain of a raw line, or `None` where the line holds none.
pub open spec fn normalized(line: Seq<char>) -> Option<Seq<char>> {
    let t = trim(line);
    if t.len() == 0 || is_comment_start(t[0]) {
        None
    } else {
        match ascii_of(prepared(lower_of(t))) {
            Some(a) => finished(a),
            None => None,
        }
    }
}

fn is_alnum_char(c: char) -> (r: bool)
    ensures
        r == is_alnum(c),
{
    ('a' <= c && c <= 'z') || ('A' <= c && c <= 'Z') || ('0' <= c && c <= '9')
}

fn is_domain_syntax_chars(v: &Vec<char>) -> (r: bool)
    ensures
        r == is_domain_syntax(v@),
{
    let n = v.len();
    if n == 0 || !is_alnum_char(v[0]) || !is_alnum_char(v[n - 1]) {
        return false;
    }
    let mut i: usize = 0;
    while i < n
        invariant
            i <= n,
            n == v.len(),
            n > 0,
            is_alnum(v@[0]),
            is_alnum(v@.last()),
            forall|j: int| 0 <= j < i ==> #[trigger] fits_at(v@, j),
        decreases n - i,
    {
        let c = v[i];
        let ok = if is_alnum_char(c) || c == '-' {
            true
        } else {
            c == '.' && 0 < i && i < n - 1 && is_alnum_char(v[i - 1]) && is_alnum_char(v[i + 1])
        };
        if !ok {
            assert(!fits_at(v@, i as int));
            return false;
        }
        i += 1;
    }
    true
}

fn digit_len_from(v: &Vec<char>, from: usize) -> (k: usize)
    requires
        from <= v.len(),
    ensures
        k == digit_len(v@.skip(from as int)),
        from + k <= v.len(),
{
    let n = v.len();
    let mut i: usize = from;
    while i < n && '0' <= v[i] && v[i] <= '9'
        invariant
            from <= i <= n,
            n == v.len(),
            digit_len(v@.skip(from as int)) == (i - from) + digit_len(v@.skip(i as int)),
        decreases n - i,
    {
        assert(v@.skip(i as int).drop_first() =~= v@.skip(i + 1));
        i += 1;
    }
    i - from
}

fn is_ipv4_chars(v: &Vec<char>) -> (r: bool)
    ensures
        r == is_ipv4_literal(v@),
{
    let n = v.len();
    let mut pos: usize = 0;
    let mut groups: usize = 4;
    assert(v@.skip(0) =~= v@);
    loop
        invariant
            1 <= groups <= 4,
            pos <= n,
            n == v.len(),
            is_ipv4_literal(v@) == dotted_groups(v@.skip(pos as int), groups as nat),
        decreases groups,
    {
        let k = digit_len_from(v, pos);
        if k < 1 || k > 3 {
            return false;
        }
        if groups == 1 {
            return pos + k == n;
        }
        if !(pos + k < n && v[pos + k] == '.') {
            return false;
        }
        assert(v@.skip(pos as int).skip(k + 1) =~= v@.skip(pos + k + 1));
        pos = pos + k + 1;
        groups -= 1;
    }
}

/// A canonical domain: fits the label grammar, is written in lower-case
/// letters, digits, hyphens and dots, is no IPv4 literal, and does not begin
/// with `www.`.
pub open spec fn is_canonical(d: Seq<char>) -> bool {
    &&& is_domain_syntax(d)
    &&& !is_ipv4_literal(d)
    &&& !www().is_prefix_of(d)
    &&& forall|i: int| 0 <= i < d.len() ==> is_lower_ldh(#[trigger] d[i])
}

proof fn lemma_cut_annotations_keeps(s: Seq<char>)
    requires
        forall|i: int| 0 <= i < s.len() ==> !is_annotation(#[trigger] s[i]),
    ensures
        cut_annotations(s) == s,
    decreases s.len(),
{
    if s.len() > 0 {
        assert(!is_annotation(s[0]));
        assert forall|i: int| 0 <= i < s.drop_first().len() implies !is_annotation(
            #[trigger] s.drop_first()[i],
        ) by {
            assert(s.drop_first()[i] == s[i + 1]);
        }
        lemma_cut_annotations_keeps(s.drop_first());
        assert(seq![s[0]] + s.drop_first() =~= s);
    }
}

proof fn lemma_drop_returns_keeps(s: Seq<char>)
    requires
        forall|i: int| 0 <= i < s.len() ==> #[trigger] s[i] != '\r',
    ensures
        drop_returns(s) == s,
    decreases s.len(),
{
    if s.len() > 0 {
        assert(s[0] != '\r');
        assert forall|i: int| 0 <= i < s.drop_first().len() implies #[trigger] s.drop_first()[i]
            != '\r' by {
            assert(s.drop_first()[i] == s[i + 1]);
        }
        lemma_drop_returns_keeps(s.drop_first());
        assert(seq![s[0]] + s.drop_first() =~= s);
    }
}

/// Every step of the normalizer that this library carries out leaves a
/// canonical domain as it is.
pub proof fn lemma_canonical_steps_keep(d: Seq<char>)
    requires
        is_canonical(d),
    ensures
        trim(d) == d,
        !is_comment_start(d[0]),
        prepared(d) == d,
        finished(d) == Some(d),
{
    assert(fits_at(d, 0));
    assert(!is_space(d[0]));
    assert(!is_space(d.last()));
    assert(trim_start(d) == d);
    assert forall|i: int| 0 <= i < d.len() implies !is_annotation(#[trigger] d[i]) && d[i] != '\r'
        && !is_space(d[i]) by {
        assert(is_lower_ldh(d[i]));
    }
    lemma_cut_annotations_keeps(d);
    lemma_drop_returns_keeps(d);
    assert(!seq!['*', '.'].is_prefix_of(d)) by {
        if seq!['*', '.'].is_prefix_of(d) {
            assert(d[0] == seq!['*', '.'][0]);
        }
    }
    assert(!seq!['.'].is_prefix_of(d)) by {
        if seq!['.'].is_prefix_of(d) {
            assert(d[0] == seq!['.'][0]);
        }
    }
    let k = hostmask_len(d) as int;
    assert(!(0 < k < d.len() && is_space(d[k])));
    assert(!seq!['|', '|'].is_prefix_of(d)) by {
        if seq!['|', '|'].is_prefix_of(d) {
            assert(d[0] == seq!['|', '|'][0]);
        }
    }
    assert(!seq!['@', '@', '|', '|'].is_prefix_of(d)) by {
        if seq!['@', '@', '|', '|'].is_prefix_of(d) {
            assert(d[0] == seq!['@', '@', '|', '|'][0]);
        }
    }
    assert(!seq!['@', '@', '|'].is_prefix_of(d)) by {
        if seq!['@', '@', '|'].is_prefix_of(d) {
            assert(d[0] == seq!['@', '@', '|'][0]);
        }
    }
    assert(!seq!['*'].is_prefix_of(d)) by {
        if seq!['*'].is_prefix_of(d) {
            assert(d[0] == seq!['*'][0]);
        }
    }
    assert(strip_marker(d) == d);
}

/// Removing leading `www.` labels from a domain leaves a domain.
pub proof fn lemma_strip_www_keeps_syntax(s: Seq<char>)
    requires
        is_domain_syntax(s),
    ensures
        is_domain_syntax(strip_all(s, www())),
    decreases s.len(),
{
    if www().is_prefix_of(s) {
        let t = s.skip(4);
        assert(s[3] == www()[3]);
        assert(fits_at(s, 3));
        assert forall|j: int| 0 <= j < t.len() implies #[trigger] fits_at(t, j) by {
            assert(fits_at(s, j + 4));
        }
        lemma_strip_www_keeps_syntax(t);
    }
}

/// What remains of `s` once leading repetitions of `p` are gone is a
/// suffix of `s` that does not begin with `p`.
pub proof fn lemma_strip_all_suffix(s: Seq<char>, p: Seq<char>)
    requires
        p.len() > 0,
    ensures
        strip_all(s, p).len() <= s.len(),
        strip_all(s, p) == s.skip(s.len() - strip_all(s, p).len()),
        !p.is_prefix_of(strip_all(s, p)),
    decreases s.len(),
{
    if p.is_prefix_of(s) {
        let t = s.skip(p.len() as int);
        lemma_strip_all_suffix(t, p);
        assert(t.skip(t.len() - strip_all(t, p).len()) =~= s.skip(
            s.len() - strip_all(t, p).len(),
        ));
    } else {
        assert(s.skip(0) =~= s);
    }
}

/// An IPv4 literal begins with a digit, so no `www.` is removed from it.
proof fn lemma_ipv4_has_no_www(a: Seq<char>)
    requires
        is_ipv4_literal(a),
    ensures
        strip_all(a, www()) == a,
{
    reveal_with_fuel(dotted_groups, 1);
    assert(digit_len(a) >= 1);
    assert('0' <= a[0] <= '9');
    if www().is_prefix_of(a) {
        assert(a[0] == www()[0]);
    }
}

/// What the last step accepts from an input without upper-case letters is a
/// canonical domain.
pub proof fn lemma_finished_canonical(a: Seq<char>)
    requires
        finished(a) is Some,
        has_no_upper(a),
    ensures
        is_canonical(finished(a)->0),
{
    let d = strip_all(a, www());
    lemma_strip_www_keeps_syntax(a);
    lemma_strip_all_suffix(a, www());
    let k = a.len() - d.len();
    assert forall|i: int| 0 <= i < d.len() implies is_lower_ldh(#[trigger] d[i]) by {
        assert(d[i] == a[i + k]);
        assert(fits_at(d, i));
    }
}

/// The last step of the normalizer, on what IDNA returned.
pub fn finish_domain(ascii: &str) -> (r: Option<String>)
    ensures
        opt_view(r) == finished(ascii@),
        is_ipv4_literal(ascii@) ==> r is None,
        r matches Some(d) ==> is_domain_syntax(d@) && !is_ipv4_literal(d@) && !www().is_prefix_of(
            d@,
        ),
        r is Some && has_no_upper(ascii@) ==> is_canonical(opt_view(r)->0),
{
    proof {
        if is_domain_syntax(ascii@) {
            lemma_strip_www_keeps_syntax(ascii@);
        }
        lemma_strip_all_suffix(ascii@, www());
        if is_ipv4_literal(ascii@) {
            lemma_ipv4_has_no_www(ascii@);
        }
        if finished(ascii@) is Some && has_no_upper(ascii@) {
            lemma_finished_canonical(ascii@);
        }
    }
    let v = chars_of(ascii);
    if !is_domain_syntax_chars(&v) {
        return None;
    }
    let w = vec!['w', 'w', 'w', '.'];
    let bare = strip_all_chars(&v, &w);
    if is_ipv4_chars(&bare) {
        return None;
    }
    Some(string_of(bare.as_slice()))
}

/// The canonical domain of one raw source line; `None` for comments, blank
/// lines and anything that is no domain.
pub fn filter_domain(line: &str) -> (r: Option<String>)
    ensures
        opt_view(r) == normalized(line@),
        r matches Some(d) ==> is_canonical(d@),
        trim(line@).len() == 0 || is_comment_start(trim(line@)[0]) ==> r is None,
        is_canonical(line@) && ascii_of(line@) == Some(line@) ==> opt_view(r) == Some(line@),
        is_canonical(line@) && is_plain_host(line@) ==> opt_view(r) == Some(line@),
{
    proof {
        if is_canonical(line@) {
            lemma_canonical_steps_keep(line@);
        }
    }
    let v = chars_of(line);
    let t = trim_chars(&v);
    if t.len() == 0 || t[0] == '#' || t[0] == '!' || t[0] == '/' {
        return None;
    }
    let trimmed = string_of(t.as_slice());
    let lowered = lowercase(trimmed.as_str());
    let prepared_line = prepare_line(lowered.as_str());
    match domain_to_ascii(prepared_line.as_str()) {
        Some(a) => finish_domain(a.as_str()),
        None => None,
    }
}

} // verus!
