//! Citation links: `[label](#tag)` or `[label](#tag:digits)`.
//!
//! The label is the shortest run of characters (no line break) that ends
//! before `](#`; the tag is the shortest run after it that is followed by `)`
//! or by `:`, one or more digits and `)`.
use vstd::prelude::*;

use crate::scan::{find_in_line, find_in_line_exec, lemma_find_in_line};
use crate::bib::{bib_tags, index_tags, lemma_unknown_tag_unnumbered, number_in, push_str, BibEntry, BibIndex};
use crate::text::{
    chars_of, decimal, decimal_digit, is_decimal_digit, push_char, push_decimal, push_range,
};

verus! {

/// `"](#"`, what closes a citation label.
pub open spec fn label_close() -> Seq<char> {
    "](#"@
}

/// The first index at or after `i` that does not hold a digit.
pub open spec fn digit_run_end(s: Seq<char>, i: int) -> int
    decreases s.len() - i,
{
    if i < 0 || i >= s.len() || !decimal_digit(s[i]) {
        i
    } else {
        digit_run_end(s, i + 1)
    }
}

/// Where the tag that starts before `j` ends, and where the link ends: at the
/// first `)`, or `:` followed by digits and `)`, at or after `j` on its line.
pub open spec fn tag_close(s: Seq<char>, j: int) -> Option<(int, int)>
    decreases s.len() - j,
{
    if j < 0 || j >= s.len() {
        None
    } else if s[j] == ')' {
        Some((j, j + 1))
    } else if s[j] == ':' && digit_run_end(s, j + 1) > j + 1 && digit_run_end(s, j + 1) < s.len()
        && s[digit_run_end(s, j + 1)] == ')' {
        Some((j, digit_run_end(s, j + 1) + 1))
    } else if s[j] == '\n' {
        None
    } else {
        tag_close(s, j + 1)
    }
}

/// The citation link that starts at `p`, as (start of tag, end of tag, end of
/// link), if one does.
pub open spec fn cite_at(s: Seq<char>, p: int) -> Option<(int, int, int)> {
    if 0 <= p < s.len() && s[p] == '[' {
        match find_in_line(s, label_close(), p + 1) {
            None => None,
            Some(q) => match tag_close(s, q + 3) {
                None => None,
                Some(t) => Some((q + 3, t.0, t.1)),
            },
        }
    } else {
        None
    }
}

/// The citation links of `s` from `i` on, leftmost first and without overlap.
pub open spec fn cites_from(s: Seq<char>, i: int) -> Seq<(int, int, int)>
    decreases s.len() - i,
{
    if i < 0 || i >= s.len() {
        seq![]
    } else {
        match cite_at(s, i) {
            Some(c) => if i < c.2 <= s.len() {
                seq![c] + cites_from(s, c.2)
            } else {
                cites_from(s, i + 1)
            },
            None => cites_from(s, i + 1),
        }
    }
}

/// The tags of the citation links of `s`, in order of appearance.
pub open spec fn cited_tags(s: Seq<char>) -> Seq<Seq<char>> {
    cites_from(s, 0).map_values(|c: (int, int, int)| s.subrange(c.0, c.1))
}

fn digit_run_end_exec(v: &Vec<char>, i: usize) -> (r: usize)
    requires
        i <= v.len(),
    ensures
        r as int == digit_run_end(v@, i as int),
        i <= r <= v.len(),
{
    let mut k = i;
    while k < v.len() && is_decimal_digit(v[k])
        invariant
            i <= k <= v.len(),
            digit_run_end(v@, i as int) == digit_run_end(v@, k as int),
        decreases v.len() - k,
    {
        k = k + 1;
    }
    k
}

fn tag_close_exec(v: &Vec<char>, j: usize) -> (r: Option<(usize, usize)>)
    ensures
        match r {
            None => tag_close(v@, j as int) is None,
            Some(t) => tag_close(v@, j as int) == Some((t.0 as int, t.1 as int)),
        },
{
    let mut k = j;
    while k < v.len()
        invariant
            j <= k,
            tag_close(v@, j as int) == tag_close(v@, k as int),
        decreases v.len() - k,
    {
        if v[k] == ')' {
            return Some((k, k + 1));
        }
        if v[k] == ':' {
            let e = digit_run_end_exec(v, k + 1);
            if e > k + 1 && e < v.len() && v[e] == ')' {
                return Some((k, e + 1));
            }
        }
        if v[k] == '\n' {
            return None;
        }
        k = k + 1;
    }
    None
}

/// The citation link that starts at `p`, if one does.
pub fn cite_at_exec(v: &Vec<char>, close: &Vec<char>, p: usize) -> (r: Option<(usize, usize, usize)>)
    requires
        close@ == label_close(),
    ensures
        match r {
            None => cite_at(v@, p as int) is None,
            Some(c) => cite_at(v@, p as int) == Some((c.0 as int, c.1 as int, c.2 as int)),
        },
{
    if p >= v.len() || v[p] != '[' {
        return None;
    }
    match find_in_line_exec(v, close, p + 1) {
        None => None,
        Some(q) => {
            proof {
                reveal_strlit("](#");
                lemma_find_in_line(v@, close@, p + 1);
            }
            match tag_close_exec(v, q + 3) {
                None => None,
                Some(t) => Some((q + 3, t.0, t.1)),
            }
        },
    }
}

/// Every citation link of `v`, leftmost first and without overlap.
pub fn cites(v: &Vec<char>) -> (r: Vec<(usize, usize, usize)>)
    ensures
        r@.map_values(|c: (usize, usize, usize)| (c.0 as int, c.1 as int, c.2 as int))
            == cites_from(v@, 0),
        forall|k: int| 0 <= k < r.len() ==> (#[trigger] r[k]).0 <= r[k].1 <= r[k].2 <= v.len(),
{
    let close = label_close_chars();
    let mut r: Vec<(usize, usize, usize)> = Vec::new();
    let mut i: usize = 0;
    while i < v.len()
        invariant
            close@ == label_close(),
            i <= v.len(),
            cites_from(v@, 0) == r@.map_values(
                |c: (usize, usize, usize)| (c.0 as int, c.1 as int, c.2 as int),
            ) + cites_from(v@, i as int),
            forall|k: int| 0 <= k < r.len() ==> (#[trigger] r[k]).0 <= r[k].1 <= r[k].2 <= v.len(),
        decreases v.len() - i,
    {
        match cite_at_exec(v, &close, i) {
            Some(c) => {
                if i < c.2 && c.2 <= v.len() {
                    proof {
                        lemma_cite_bounds(v@, i as int);
                    }
                    let ghost before = r@;
                    r.push(c);
                    assert(r@.map_values(
                        |c: (usize, usize, usize)| (c.0 as int, c.1 as int, c.2 as int),
                    ) =~= before.map_values(
                        |c: (usize, usize, usize)| (c.0 as int, c.1 as int, c.2 as int),
                    ).push((c.0 as int, c.1 as int, c.2 as int)));
                    i = c.2;
                } else {
                    i = i + 1;
                }
            },
            None => {
                i = i + 1;
            },
        }
    }
    assert(cites_from(v@, i as int) =~= seq![]);
    assert(r@.map_values(|c: (usize, usize, usize)| (c.0 as int, c.1 as int, c.2 as int))
        =~= cites_from(v@, 0));
    r
}

/// The end of a tag closing at `j` is not before `j`, and the link ends after it.
pub proof fn lemma_tag_close(s: Seq<char>, j: int)
    ensures
        tag_close(s, j) matches Some(t) ==> j <= t.0 < t.1 <= s.len(),
    decreases s.len() - j,
{
    if !(j < 0 || j >= s.len()) && s[j] != ')' && !(s[j] == ':' && digit_run_end(s, j + 1) > j
        + 1 && digit_run_end(s, j + 1) < s.len() && s[digit_run_end(s, j + 1)] == ')') && s[j]
        != '\n' {
        lemma_tag_close(s, j + 1);
    }
}

/// A citation link at `p` lies within `s`, its tag after `p`.
pub proof fn lemma_cite_bounds(s: Seq<char>, p: int)
    ensures
        cite_at(s, p) matches Some(c) ==> p < c.0 <= c.1 < c.2 <= s.len(),
{
    reveal_strlit("](#");
    if 0 <= p < s.len() && s[p] == '[' {
        lemma_find_in_line(s, label_close(), p + 1);
        if let Some(q) = find_in_line(s, label_close(), p + 1) {
            lemma_tag_close(s, q + 3);
        }
    }
}

/// `[n](#tag:page)`, a citation link that carries its number and its page.
pub open spec fn citation_text(n: nat, tag: Seq<char>, page: nat) -> Seq<char> {
    seq!['['] + decimal(n) + label_close() + tag + seq![':'] + decimal(page) + seq![')']
}

/// `s` from `i` on, each citation link whose tag `idx` numbers written as
/// `citation_text`, everything else kept as it is.
pub open spec fn rewrite_from(s: Seq<char>, i: int, idx: Seq<Seq<char>>, page: nat) -> Seq<char>
    decreases s.len() - i,
{
    if i < 0 || i >= s.len() {
        seq![]
    } else {
        match cite_at(s, i) {
            Some(c) => if i < c.2 <= s.len() {
                (match number_in(idx, s.subrange(c.0, c.1)) {
                    Some(n) => citation_text(n as nat, s.subrange(c.0, c.1), page),
                    None => s.subrange(i, c.2),
                }) + rewrite_from(s, c.2, idx, page)
            } else {
                seq![s[i]] + rewrite_from(s, i + 1, idx, page)
            },
            None => seq![s[i]] + rewrite_from(s, i + 1, idx, page),
        }
    }
}

/// `s` with its citation links numbered for page `page`.
pub open spec fn rewrite(s: Seq<char>, idx: Seq<Seq<char>>, page: nat) -> Seq<char> {
    rewrite_from(s, 0, idx, page)
}

/// `s` with its citation links numbered by `idx` for page `page`.
pub fn rewrite_citations(s: &str, idx: &BibIndex, page: usize) -> (r: String)
    ensures
        r@ == rewrite(s@, idx@, page as nat),
{
    let v = chars_of(s);
    let close = label_close_chars();
    let mut out = String::new();
    let mut i: usize = 0;
    while i < v.len()
        invariant
            close@ == label_close(),
            v@ == s@,
            i <= v.len(),
            rewrite(v@, idx@, page as nat) == out@ + rewrite_from(v@, i as int, idx@, page as nat),
        decreases v.len() - i,
    {
        let ghost prev = out@;
        match cite_at_exec(&v, &close, i) {
            Some(c) => {
                if i < c.2 && c.2 <= v.len() {
                    proof {
                        lemma_cite_bounds(v@, i as int);
                    }
                    match idx.position(&v, c.0, c.1) {
                        Some(k) => {
                            push_char(&mut out, '[');
                            push_decimal(&mut out, k + 1);
                            push_str(&mut out, "](#");
                            push_range(&mut out, &v, c.0, c.1);
                            push_char(&mut out, ':');
                            push_decimal(&mut out, page);
                            push_char(&mut out, ')');
                            assert(out@ =~= prev + citation_text(
                                (k + 1) as nat,
                                v@.subrange(c.0 as int, c.1 as int),
                                page as nat,
                            ));
                        },
                        None => {
                            push_range(&mut out, &v, i, c.2);
                        },
                    }
                    assert(prev + rewrite_from(v@, i as int, idx@, page as nat) =~= out@
                        + rewrite_from(v@, c.2 as int, idx@, page as nat));
                    i = c.2;
                } else {
                    push_char(&mut out, v[i]);
                    assert(prev + rewrite_from(v@, i as int, idx@, page as nat) =~= out@
                        + rewrite_from(v@, i + 1, idx@, page as nat));
                    i = i + 1;
                }
            },
            None => {
                push_char(&mut out, v[i]);
                assert(prev + rewrite_from(v@, i as int, idx@, page as nat) =~= out@
                    + rewrite_from(v@, i + 1, idx@, page as nat));
                i = i + 1;
            },
        }
    }
    assert(out@ =~= out@ + rewrite_from(v@, i as int, idx@, page as nat));
    out
}

/// Rewriting from `i` keeps the text when no link from `i` on has a numbered tag.
proof fn lemma_rewrite_keeps(s: Seq<char>, i: int, idx: Seq<Seq<char>>, page: nat)
    requires
        0 <= i <= s.len(),
        forall|p: int|
            i <= p < s.len() ==> (#[trigger] cite_at(s, p) matches Some(c) ==> number_in(
                idx,
                s.subrange(c.0, c.1),
            ) is None),
    ensures
        rewrite_from(s, i, idx, page) == s.subrange(i, s.len() as int),
    decreases s.len() - i,
{
    if i < s.len() {
        match cite_at(s, i) {
            Some(c) => {
                if i < c.2 <= s.len() {
                    lemma_rewrite_keeps(s, c.2, idx, page);
                    assert(s.subrange(i, c.2) + s.subrange(c.2, s.len() as int) =~= s.subrange(
                        i,
                        s.len() as int,
                    ));
                } else {
                    lemma_rewrite_keeps(s, i + 1, idx, page);
                    assert(seq![s[i]] + s.subrange(i + 1, s.len() as int) =~= s.subrange(
                        i,
                        s.len() as int,
                    ));
                }
            },
            None => {
                lemma_rewrite_keeps(s, i + 1, idx, page);
                assert(seq![s[i]] + s.subrange(i + 1, s.len() as int) =~= s.subrange(
                    i,
                    s.len() as int,
                ));
            },
        }
    } else {
        assert(s.subrange(i, s.len() as int) =~= seq![]);
    }
}

/// Rewriting from `i` keeps the text when no link that the scan from `i` finds
/// has a numbered tag.
pub proof fn lemma_rewrite_keeps_scanned(s: Seq<char>, i: int, idx: Seq<Seq<char>>, page: nat)
    requires
        0 <= i <= s.len(),
        forall|m: int|
            #![trigger cites_from(s, i)[m]]
            0 <= m < cites_from(s, i).len() ==> number_in(
                idx,
                s.subrange(cites_from(s, i)[m].0, cites_from(s, i)[m].1),
            ) is None,
    ensures
        rewrite_from(s, i, idx, page) == s.subrange(i, s.len() as int),
    decreases s.len() - i,
{
    if i < s.len() {
        lemma_cite_bounds(s, i);
        let next = match cite_at(s, i) {
            Some(c) => if i < c.2 <= s.len() {
                c.2
            } else {
                i + 1
            },
            None => i + 1,
        };
        if next == i + 1 {
            assert(cites_from(s, i) == cites_from(s, i + 1));
        } else {
            let c = cite_at(s, i)->Some_0;
            assert(cites_from(s, i)[0] == c);
            assert forall|m: int|
                #![trigger cites_from(s, c.2)[m]]
                0 <= m < cites_from(s, c.2).len() implies number_in(
                    idx,
                    s.subrange(cites_from(s, c.2)[m].0, cites_from(s, c.2)[m].1),
                ) is None by {
                assert(cites_from(s, i)[m + 1] == cites_from(s, c.2)[m]);
            }
        }
        lemma_rewrite_keeps_scanned(s, next, idx, page);
        if next == i + 1 {
            assert(seq![s[i]] + s.subrange(i + 1, s.len() as int) =~= s.subrange(
                i,
                s.len() as int,
            ));
        } else {
            assert(s.subrange(i, next) + s.subrange(next, s.len() as int) =~= s.subrange(
                i,
                s.len() as int,
            ));
        }
    } else {
        assert(s.subrange(i, s.len() as int) =~= seq![]);
    }
}

/// Citation links whose tags the bibliography does not hold pass through the
/// rewrite unchanged: a page whose links all have such tags is kept byte for
/// byte, whatever the pages that the index was built from.
pub proof fn lemma_unresolved_links_unchanged(
    s: Seq<char>,
    pages: Seq<Seq<char>>,
    bib: Seq<BibEntry>,
    page: nat,
)
    requires
        forall|p: int|
            #[trigger] cite_at(s, p) matches Some(c) ==> !bib_tags(bib).contains(
                s.subrange(c.0, c.1),
            ),
    ensures
        rewrite(s, index_tags(pages, bib), page) == s,
{
    assert forall|p: int| 0 <= p < s.len() implies (#[trigger] cite_at(s, p) matches Some(c)
        ==> number_in(index_tags(pages, bib), s.subrange(c.0, c.1)) is None) by {
        if let Some(c) = cite_at(s, p) {
            lemma_unknown_tag_unnumbered(pages, bib, s.subrange(c.0, c.1));
        }
    }
    lemma_rewrite_keeps(s, 0, index_tags(pages, bib), page);
    assert(s.subrange(0, s.len() as int) =~= s);
}

/// `a` ends with `b`.
pub open spec fn ends_with(a: Seq<char>, b: Seq<char>) -> bool {
    b.len() <= a.len() && a.subrange(a.len() - b.len(), a.len() as int) == b
}

proof fn lemma_ends_with_prefixed(x: Seq<char>, y: Seq<char>, z: Seq<char>)
    requires
        ends_with(y, z),
    ensures
        ends_with(x + y, z),
{
    assert((x + y).subrange((x + y).len() - z.len(), (x + y).len() as int) =~= y.subrange(
        y.len() - z.len(),
        y.len() as int,
    ));
}

/// The rewrite from `i` ends with the rewrite from the start of each link that
/// the scan from `i` finds.
proof fn lemma_rewrite_suffix(s: Seq<char>, i: int, idx: Seq<Seq<char>>, page: nat)
    requires
        0 <= i <= s.len(),
    ensures
        forall|m: int|
            #![trigger cites_from(s, i)[m]]
            0 <= m < cites_from(s, i).len() ==> exists|p: int|
                i <= p && #[trigger] cite_at(s, p) == Some(cites_from(s, i)[m]) && ends_with(
                    rewrite_from(s, i, idx, page),
                    rewrite_from(s, p, idx, page),
                ),
    decreases s.len() - i,
{
    if i < s.len() {
        lemma_cite_bounds(s, i);
        let next = match cite_at(s, i) {
            Some(c) => if i < c.2 <= s.len() {
                c.2
            } else {
                i + 1
            },
            None => i + 1,
        };
        lemma_rewrite_suffix(s, next, idx, page);
        let r = rewrite_from(s, i, idx, page);
        let rn = rewrite_from(s, next, idx, page);
        let piece = r.subrange(0, r.len() - rn.len());
        assert(r == piece + rn) by {
            if next == i + 1 {
                assert(r == seq![s[i]] + rn);
            } else {
                let c = cite_at(s, i)->Some_0;
                assert(r == (match number_in(idx, s.subrange(c.0, c.1)) {
                    Some(n) => citation_text(n as nat, s.subrange(c.0, c.1), page),
                    None => s.subrange(i, c.2),
                }) + rn);
            }
            assert(piece + rn =~= r);
        }
        assert forall|m: int|
            #![trigger cites_from(s, i)[m]]
            0 <= m < cites_from(s, i).len() implies exists|p: int|
                i <= p && #[trigger] cite_at(s, p) == Some(cites_from(s, i)[m]) && ends_with(
                    r,
                    rewrite_from(s, p, idx, page),
                ) by {
            if next == i + 1 {
                assert(cites_from(s, i) == cites_from(s, i + 1));
                let p = choose|p: int|
                    next <= p && #[trigger] cite_at(s, p) == Some(cites_from(s, next)[m])
                        && ends_with(rn, rewrite_from(s, p, idx, page));
                lemma_ends_with_prefixed(piece, rn, rewrite_from(s, p, idx, page));
            } else if m == 0 {
                assert(cites_from(s, i)[0] == cite_at(s, i)->Some_0);
                assert(r.subrange(0, r.len() as int) =~= r);
            } else {
                assert(cites_from(s, i)[m] == cites_from(s, next)[m - 1]);
                let p = choose|p: int|
                    next <= p && #[trigger] cite_at(s, p) == Some(cites_from(s, next)[m - 1])
                        && ends_with(rn, rewrite_from(s, p, idx, page));
                lemma_ends_with_prefixed(piece, rn, rewrite_from(s, p, idx, page));
            }
        }
    }
}

/// A citation link that the scan finds and whose tag the index does not number
/// stands unchanged in the rewritten text, at its place: what follows it there
/// is the rewrite of what follows it in `s`.
pub proof fn lemma_unresolved_link_in_place(s: Seq<char>, idx: Seq<Seq<char>>, page: nat, m: int)
    requires
        0 <= m < cites_from(s, 0).len(),
        number_in(idx, s.subrange(cites_from(s, 0)[m].0, cites_from(s, 0)[m].1)) is None,
    ensures
        exists|p: int|
            #[trigger] cite_at(s, p) == Some(cites_from(s, 0)[m]) && ends_with(
                rewrite(s, idx, page),
                s.subrange(p, cites_from(s, 0)[m].2) + rewrite_from(
                    s,
                    cites_from(s, 0)[m].2,
                    idx,
                    page,
                ),
            ),
{
    lemma_rewrite_suffix(s, 0, idx, page);
    let c = cites_from(s, 0)[m];
    let p = choose|p: int|
        0 <= p && #[trigger] cite_at(s, p) == Some(c) && ends_with(
            rewrite_from(s, 0, idx, page),
            rewrite_from(s, p, idx, page),
        );
    lemma_cite_bounds(s, p);
    assert(rewrite_from(s, p, idx, page) == s.subrange(p, c.2) + rewrite_from(s, c.2, idx, page));
}

/// `"](#"` as characters.
pub fn label_close_chars() -> (r: Vec<char>)
    ensures
        r@ == label_close(),
{
    chars_of("](#")
}

} // verus!
