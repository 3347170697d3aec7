//! Writing a split document out and splitting it again gives the same
//! frontmatter and pages.
use vstd::prelude::*;

use crate::contents::{is_separator, join, page_break, segments, serialize, split_doc};
use crate::text::{
    all_ws, is_ws, lemma_line_end, lemma_trim_ends, lemma_trim_idempotent, lemma_trim_pad, line_end,
    lines, strip_cr, trim,
};

verus! {

/// The pieces of `s` between its `'\n'`s (one more than there are `'\n'`s).
pub open spec fn split_nl(s: Seq<char>) -> Seq<Seq<char>>
    decreases s.len(),
{
    let k = line_end(s);
    if 0 <= k < s.len() {
        seq![s.subrange(0, k)] + split_nl(s.subrange(k + 1, s.len() as int))
    } else {
        seq![s]
    }
}

/// Each line followed by `'\n'`.
pub open spec fn unlines(g: Seq<Seq<char>>) -> Seq<char>
    decreases g.len(),
{
    if g.len() == 0 {
        seq![]
    } else {
        unlines(g.drop_last()) + g.last().push('\n')
    }
}

/// A line that does not end with `'\r'`, so that a `'\n'` after it is read back
/// as a plain line break.
pub open spec fn clean_line(l: Seq<char>) -> bool {
    l.len() == 0 || l.last() != '\r'
}

/// The documents that come back unchanged: no line of the frontmatter or of a
/// page ends with `'\r'` (that is, none holds `"\r\n"`), and no line of a page
/// is a separator.
pub open spec fn round_trips(fm: Seq<char>, pages: Seq<Seq<char>>) -> bool {
    &&& forall|i: int| 0 <= i < split_nl(fm).len() ==> clean_line(#[trigger] split_nl(fm)[i])
    &&& forall|j: int, i: int|
        0 <= j < pages.len() && 0 <= i < split_nl(pages[j]).len() ==> clean_line(
            #[trigger] split_nl(pages[j])[i],
        ) && !is_separator(split_nl(pages[j])[i])
}

proof fn lemma_no_nl(s: Seq<char>) -> (k: int)
    ensures
        k == line_end(s),
        0 <= k <= s.len(),
        k < s.len() ==> s[k] == '\n',
        forall|j: int| 0 <= j < k ==> s[j] != '\n',
    decreases s.len(),
{
    if s.len() > 0 && s[0] != '\n' {
        let k1 = lemma_no_nl(s.drop_first());
        assert forall|j: int| 0 <= j < k1 + 1 implies s[j] != '\n' by {
            if j > 0 {
                assert(s.drop_first()[j - 1] == s[j]);
            }
        }
    }
    line_end(s)
}

proof fn lemma_split_one(l: Seq<char>)
    requires
        forall|j: int| 0 <= j < l.len() ==> l[j] != '\n',
    ensures
        split_nl(l) == seq![l],
{
    let k = lemma_no_nl(l);
    if k < l.len() {
        assert(l[k] != '\n');
    }
}

/// `'\n'` splits the pieces of what stands before it from those after it.
proof fn lemma_split_cat(a: Seq<char>, b: Seq<char>)
    ensures
        split_nl(a + seq!['\n'] + b) == split_nl(a) + split_nl(b),
    decreases a.len(),
{
    let t = a + seq!['\n'] + b;
    let ka = lemma_no_nl(a);
    let kt = lemma_no_nl(t);
    if ka < a.len() {
        assert(t[ka] == '\n');
        lemma_line_end(t, ka);
        assert(t.subrange(0, ka) =~= a.subrange(0, ka));
        let ra = a.subrange(ka + 1, a.len() as int);
        assert(t.subrange(ka + 1, t.len() as int) =~= ra + seq!['\n'] + b);
        lemma_split_cat(ra, b);
    } else {
        assert(t[a.len() as int] == '\n');
        lemma_line_end(t, a.len() as int);
        assert(t.subrange(0, a.len() as int) =~= a);
        assert(t.subrange(a.len() + 1 as int, t.len() as int) =~= b);
    }
}

proof fn lemma_split_nonempty(s: Seq<char>)
    ensures
        split_nl(s).len() >= 1,
    decreases s.len(),
{
    let k = lemma_no_nl(s);
    if k < s.len() {
        lemma_split_nonempty(s.subrange(k + 1, s.len() as int));
    }
}

/// The pieces of `s` hold no `'\n'`.
proof fn lemma_split_pieces(s: Seq<char>)
    ensures
        forall|i: int, j: int|
            0 <= i < split_nl(s).len() && 0 <= j < split_nl(s)[i].len() ==> #[trigger] split_nl(s)[i][j]
                != '\n',
    decreases s.len(),
{
    let k = lemma_no_nl(s);
    if k < s.len() {
        let r = s.subrange(k + 1, s.len() as int);
        lemma_split_pieces(r);
        assert forall|i: int, j: int|
            0 <= i < split_nl(s).len() && 0 <= j < split_nl(s)[i].len() implies #[trigger] split_nl(s)[i][j]
                != '\n' by {
            if i > 0 {
                assert(split_nl(s)[i] == split_nl(r)[i - 1]);
            }
        }
    }
}

/// Dropping a final empty piece.
pub open spec fn drop_empty_last(xs: Seq<Seq<char>>) -> Seq<Seq<char>> {
    if xs.len() > 0 && xs.last().len() == 0 {
        xs.drop_last()
    } else {
        xs
    }
}

/// Where no piece ends with `'\r'`, `lines` gives the pieces but a final empty one.
proof fn lemma_lines_split(s: Seq<char>)
    requires
        forall|i: int| 0 <= i < split_nl(s).len() ==> clean_line(#[trigger] split_nl(s)[i]),
    ensures
        lines(s) == drop_empty_last(split_nl(s)),
    decreases s.len(),
{
    let k = lemma_no_nl(s);
    if k < s.len() {
        let r = s.subrange(k + 1, s.len() as int);
        lemma_split_nonempty(r);
        assert forall|i: int| 0 <= i < split_nl(r).len() implies clean_line(#[trigger] split_nl(r)[i]) by {
            assert(split_nl(s)[i + 1] == split_nl(r)[i]);
        }
        lemma_lines_split(r);
        assert(split_nl(s)[0] == s.subrange(0, k));
        assert(strip_cr(s.subrange(0, k)) == s.subrange(0, k));
        assert(drop_empty_last(split_nl(s)) =~= seq![s.subrange(0, k)] + drop_empty_last(split_nl(r)));
    } else {
        assert(split_nl(s) == seq![s]);
        if s.len() == 0 {
            assert(drop_empty_last(split_nl(s)) =~= seq![]);
        }
    }
}

proof fn lemma_unlines_split(s: Seq<char>)
    ensures
        unlines(split_nl(s)) == s.push('\n'),
    decreases s.len(),
{
    let k = lemma_no_nl(s);
    if k < s.len() {
        let r = s.subrange(k + 1, s.len() as int);
        lemma_unlines_split(r);
        lemma_unlines_cat(seq![s.subrange(0, k)], split_nl(r));
        lemma_unlines_one(s.subrange(0, k));
        assert(s.subrange(0, k).push('\n') + r.push('\n') =~= s.push('\n'));
    } else {
        assert(split_nl(s) == seq![s]);
        lemma_unlines_one(s);
    }
}

proof fn lemma_unlines_one(x: Seq<char>)
    ensures
        unlines(seq![x]) == x.push('\n'),
{
    assert(seq![x].drop_last() =~= Seq::<Seq<char>>::empty());
    assert(unlines(Seq::<Seq<char>>::empty()) == Seq::<char>::empty());
    assert(Seq::<char>::empty() + x.push('\n') =~= x.push('\n'));
}

proof fn lemma_unlines_cat(g: Seq<Seq<char>>, h: Seq<Seq<char>>)
    ensures
        unlines(g + h) == unlines(g) + unlines(h),
    decreases h.len(),
{
    if h.len() == 0 {
        assert(g + h =~= g);
        assert(unlines(g) + unlines(h) =~= unlines(g));
    } else {
        lemma_unlines_cat(g, h.drop_last());
        assert((g + h).drop_last() =~= g + h.drop_last());
        assert(unlines(g + h) =~= unlines(g) + unlines(h));
    }
}

/// One step of the segmentation, as `segments` takes it.
pub open spec fn seg_step(acc: Option<Seq<Seq<char>>>, l: Seq<char>) -> Option<Seq<Seq<char>>> {
    match acc {
        None => None,
        Some(acc) => if is_separator(l) {
            Some(acc.push(seq![]))
        } else if acc.len() == 0 {
            None
        } else {
            Some(acc.update(acc.len() - 1, acc.last() + l.push('\n')))
        },
    }
}

/// The segmentation of `ls` continued from `acc`.
pub open spec fn seg_from(acc: Option<Seq<Seq<char>>>, ls: Seq<Seq<char>>) -> Option<Seq<Seq<char>>>
    decreases ls.len(),
{
    if ls.len() == 0 {
        acc
    } else {
        seg_step(seg_from(acc, ls.drop_last()), ls.last())
    }
}

proof fn lemma_segments_from(ls: Seq<Seq<char>>)
    ensures
        segments(ls) == seg_from(Some(seq![]), ls),
    decreases ls.len(),
{
    if ls.len() > 0 {
        lemma_segments_from(ls.drop_last());
    }
}

proof fn lemma_seg_cat(acc: Option<Seq<Seq<char>>>, xs: Seq<Seq<char>>, ys: Seq<Seq<char>>)
    ensures
        seg_from(acc, xs + ys) == seg_from(seg_from(acc, xs), ys),
    decreases ys.len(),
{
    if ys.len() == 0 {
        assert(xs + ys =~= xs);
    } else {
        lemma_seg_cat(acc, xs, ys.drop_last());
        assert((xs + ys).drop_last() =~= xs + ys.drop_last());
    }
}

/// Lines that are no separators are appended to the open segment.
proof fn lemma_seg_group(g: Seq<Seq<char>>, ls: Seq<Seq<char>>)
    requires
        g.len() > 0,
        forall|i: int| 0 <= i < ls.len() ==> !is_separator(#[trigger] ls[i]),
    ensures
        seg_from(Some(g), ls) == Some(g.update(g.len() - 1, g.last() + unlines(ls))),
    decreases ls.len(),
{
    if ls.len() == 0 {
        assert(g.update(g.len() - 1, g.last() + unlines(ls)) =~= g);
    } else {
        lemma_seg_group(g, ls.drop_last());
        let h = g.update(g.len() - 1, g.last() + unlines(ls.drop_last()));
        assert(!is_separator(ls[ls.len() - 1]));
        assert(unlines(ls) == unlines(ls.drop_last()) + ls.last().push('\n'));
        assert(h.last() == g.last() + unlines(ls.drop_last()));
        assert(h.last() + ls.last().push('\n') =~= g.last() + unlines(ls));
        assert(h.update(h.len() - 1, h.last() + ls.last().push('\n')) =~= g.update(
            g.len() - 1,
            g.last() + unlines(ls),
        ));
    }
}

/// A separator opens a new segment.
proof fn lemma_seg_sep(g: Seq<Seq<char>>, l: Seq<char>)
    requires
        is_separator(l),
    ensures
        seg_from(Some(g), seq![l]) == Some(g.push(seq![])),
{
    assert(seq![l].drop_last() =~= Seq::<Seq<char>>::empty());
    assert(seg_from(Some(g), Seq::<Seq<char>>::empty()) == Some(g));
    assert(seq![l].last() == l);
}

/// What the segmentation of an input gives: each segment is empty or ends with
/// `'\n'`, and none of its lines is a separator.
proof fn lemma_segment_shape(ls: Seq<Seq<char>>)
    requires
        forall|i: int, j: int| 0 <= i < ls.len() && 0 <= j < ls[i].len() ==> #[trigger] ls[i][j] != '\n',
    ensures
        segments(ls) matches Some(g) ==> forall|k: int|
            0 <= k < g.len() ==> (#[trigger] g[k]).len() == 0 || g[k].last() == '\n',
        segments(ls) matches Some(g) ==> forall|k: int, i: int|
            0 <= k < g.len() && 0 <= i < split_nl(g[k]).len() - 1 ==> !is_separator(
                #[trigger] split_nl(g[k])[i],
            ),
    decreases ls.len(),
{
    if ls.len() > 0 {
        lemma_segment_shape(ls.drop_last());
        if let Some(acc) = segments(ls.drop_last()) {
            let l = ls.last();
            if !is_separator(l) && acc.len() > 0 {
                let seg = acc.last();
                let nseg = seg + l.push('\n');
                assert forall|j: int| 0 <= j < l.len() implies l[j] != '\n' by {
                    assert(ls[ls.len() - 1][j] == l[j]);
                }
                lemma_split_one(l);
                if seg.len() == 0 {
                    assert(nseg =~= l + seq!['\n'] + Seq::<char>::empty());
                    lemma_split_cat(l, Seq::<char>::empty());
                    assert(split_nl(Seq::<char>::empty()) == seq![Seq::<char>::empty()]);
                    assert(split_nl(nseg) =~= seq![l, Seq::<char>::empty()]);
                } else {
                    let s0 = seg.drop_last();
                    assert(seg =~= s0 + seq!['\n'] + Seq::<char>::empty());
                    lemma_split_cat(s0, Seq::<char>::empty());
                    assert(nseg =~= s0 + seq!['\n'] + l.push('\n'));
                    lemma_split_cat(s0, l.push('\n'));
                    assert(l.push('\n') =~= l + seq!['\n'] + Seq::<char>::empty());
                    lemma_split_cat(l, Seq::<char>::empty());
                    assert(split_nl(Seq::<char>::empty()) == seq![Seq::<char>::empty()]);
                    assert(split_nl(seg) =~= split_nl(s0) + seq![Seq::<char>::empty()]);
                    assert(split_nl(nseg) =~= split_nl(s0) + seq![l, Seq::<char>::empty()]);
                }
                let g = acc.update(acc.len() - 1, nseg);
                assert forall|k: int, i: int|
                    0 <= k < g.len() && 0 <= i < split_nl(g[k]).len() - 1 implies !is_separator(
                        #[trigger] split_nl(g[k])[i],
                    ) by {
                    if k < acc.len() - 1 {
                        assert(g[k] == acc[k]);
                    } else if seg.len() > 0 {
                        let s0 = seg.drop_last();
                        if i < split_nl(s0).len() {
                            assert(split_nl(seg)[i] == split_nl(s0)[i]);
                        }
                    }
                }
            }
        }
    }
}

/// `lines` yields no `'\n'`.
proof fn lemma_lines_pieces(s: Seq<char>)
    ensures
        forall|i: int, j: int|
            0 <= i < lines(s).len() && 0 <= j < lines(s)[i].len() ==> #[trigger] lines(s)[i][j] != '\n',
    decreases s.len(),
{
    if s.len() > 0 {
        let k = lemma_no_nl(s);
        if k < s.len() {
            let r = s.subrange(k + 1, s.len() as int);
            lemma_lines_pieces(r);
            assert forall|i: int, j: int|
                0 <= i < lines(s).len() && 0 <= j < lines(s)[i].len() implies #[trigger] lines(s)[i][j]
                    != '\n' by {
                if i > 0 {
                    assert(lines(s)[i] == lines(r)[i - 1]);
                } else {
                    assert(lines(s)[0][j] == s[j]);
                }
            }
        }
    }
}

/// The pieces of the pages joined by page breaks.
pub open spec fn page_pieces(ps: Seq<Seq<char>>) -> Seq<Seq<char>>
    decreases ps.len(),
{
    if ps.len() <= 1 {
        if ps.len() == 1 {
            split_nl(ps[0])
        } else {
            seq![]
        }
    } else {
        page_pieces(ps.drop_last()) + seq![seq![], seq!['-', '-', '-'], seq![]] + split_nl(ps.last())
    }
}

proof fn lemma_dashes()
    ensures
        split_nl(seq!['-', '-', '-']) == seq![seq!['-', '-', '-']],
        split_nl(Seq::<char>::empty()) == seq![Seq::<char>::empty()],
        is_separator(seq!['-', '-', '-']),
        !is_separator(Seq::<char>::empty()),
        clean_line(seq!['-', '-', '-']),
        clean_line(Seq::<char>::empty()),
        all_ws(seq!['\n']),
        all_ws(seq!['\n', '\n']),
        all_ws(Seq::<char>::empty()),
{
    lemma_split_one(seq!['-', '-', '-']);
    lemma_split_one(Seq::<char>::empty());
}

proof fn lemma_join_pieces(ps: Seq<Seq<char>>)
    requires
        ps.len() >= 1,
    ensures
        split_nl(join(ps, page_break())) == page_pieces(ps),
    decreases ps.len(),
{
    lemma_dashes();
    if ps.len() > 1 {
        lemma_join_pieces(ps.drop_last());
        let a = join(ps.drop_last(), page_break());
        let l = ps.last();
        let e = Seq::<char>::empty();
        let d = seq!['-', '-', '-'];
        let b3 = e + seq!['\n'] + l;
        let b2 = d + seq!['\n'] + b3;
        let b1 = e + seq!['\n'] + b2;
        assert(join(ps, page_break()) =~= a + seq!['\n'] + b1);
        lemma_split_cat(a, b1);
        lemma_split_cat(e, b2);
        lemma_split_cat(d, b3);
        lemma_split_cat(e, l);
        assert(split_nl(join(ps, page_break())) =~= page_pieces(ps));
    }
}

/// The pieces of the pages are clean, and none but the page breaks' dashes is a
/// separator.
proof fn lemma_page_pieces_ok(ps: Seq<Seq<char>>)
    requires
        forall|j: int, i: int|
            0 <= j < ps.len() && 0 <= i < split_nl(ps[j]).len() ==> clean_line(
                #[trigger] split_nl(ps[j])[i],
            ) && !is_separator(split_nl(ps[j])[i]),
    ensures
        forall|i: int| 0 <= i < page_pieces(ps).len() ==> clean_line(#[trigger] page_pieces(ps)[i]),
    decreases ps.len(),
{
    lemma_dashes();
    if ps.len() > 1 {
        lemma_page_pieces_ok(ps.drop_last());
        let q = page_pieces(ps.drop_last());
        let t = split_nl(ps.last());
        assert forall|i: int| 0 <= i < page_pieces(ps).len() implies clean_line(#[trigger] page_pieces(ps)[i]) by {
            if i < q.len() {
                assert(page_pieces(ps)[i] == q[i]);
            } else if i >= q.len() + 3 {
                assert(page_pieces(ps)[i] == t[i - q.len() - 3]);
                assert(ps[ps.len() - 1] == ps.last());
            }
        }
    } else if ps.len() == 1 {
        assert forall|i: int| 0 <= i < page_pieces(ps).len() implies clean_line(#[trigger] page_pieces(ps)[i]) by {
            assert(page_pieces(ps)[i] == split_nl(ps[0])[i]);
        }
    }
}

/// A piece list of a page with no separators among them.
proof fn lemma_page_no_sep(ps: Seq<Seq<char>>, j: int)
    requires
        0 <= j < ps.len(),
        forall|j: int, i: int|
            0 <= j < ps.len() && 0 <= i < split_nl(ps[j]).len() ==> clean_line(
                #[trigger] split_nl(ps[j])[i],
            ) && !is_separator(split_nl(ps[j])[i]),
    ensures
        forall|i: int| 0 <= i < split_nl(ps[j]).len() ==> !is_separator(#[trigger] split_nl(ps[j])[i]),
{
    assert forall|i: int| 0 <= i < split_nl(ps[j]).len() implies !is_separator(#[trigger] split_nl(ps[j])[i]) by {
        assert(clean_line(split_nl(ps[j])[i]) && !is_separator(split_nl(ps[j])[i]));
    }
}

/// The segments that the pieces of the pages open after a separator: one per
/// page, each trimmed to the page; the last is the last page between line
/// breaks.
proof fn lemma_page_segments(g: Seq<Seq<char>>, ps: Seq<Seq<char>>) -> (h: Seq<Seq<char>>)
    requires
        g.len() >= 1,
        g.last().len() == 0,
        ps.len() >= 1,
        forall|j: int| 0 <= j < ps.len() ==> trim(#[trigger] ps[j]) == ps[j],
        forall|j: int, i: int|
            0 <= j < ps.len() && 0 <= i < split_nl(ps[j]).len() ==> clean_line(
                #[trigger] split_nl(ps[j])[i],
            ) && !is_separator(split_nl(ps[j])[i]),
    ensures
        seg_from(Some(g), page_pieces(ps)) == Some(h),
        h.len() == g.len() + ps.len() - 1,
        forall|i: int| 0 <= i < g.len() - 1 ==> h[i] == g[i],
        forall|i: int| 0 <= i < ps.len() ==> trim(#[trigger] h[g.len() - 1 + i]) == ps[i],
        h.last() == ps.last().push('\n') || h.last() == seq!['\n'] + ps.last().push('\n'),
    decreases ps.len(),
{
    lemma_dashes();
    let n = ps.len();
    if n == 1 {
        let p = ps[0];
        lemma_page_no_sep(ps, 0);
        lemma_seg_group(g, split_nl(p));
        lemma_unlines_split(p);
        let h = g.update(g.len() - 1, g.last() + p.push('\n'));
        assert(g.last() + p.push('\n') =~= p.push('\n'));
        lemma_trim_ends(p);
        lemma_trim_pad(Seq::<char>::empty(), p, seq!['\n']);
        assert(Seq::<char>::empty() + p + seq!['\n'] =~= p.push('\n'));
        assert(h[g.len() - 1] == p.push('\n'));
        assert(page_pieces(ps) == split_nl(p));
        assert(seg_from(Some(g), page_pieces(ps)) == Some(h));
        h
    } else {
        let pre = ps.drop_last();
        let l = ps.last();
        let h1 = lemma_page_segments(g, pre);
        let e = Seq::<char>::empty();
        let d = seq!['-', '-', '-'];
        lemma_seg_cat(Some(g), page_pieces(pre), seq![e, d, e] + split_nl(l));
        assert(page_pieces(pre) + seq![e, d, e] + split_nl(l) =~= page_pieces(pre) + (seq![e, d, e]
            + split_nl(l)));
        assert(seq![e, d, e] + split_nl(l) =~= seq![e] + (seq![d] + (seq![e] + split_nl(l))));
        lemma_seg_cat(Some(h1), seq![e], seq![d] + (seq![e] + split_nl(l)));
        lemma_seg_group(h1, seq![e]);
        lemma_unlines_one(e);
        let h2 = h1.update(h1.len() - 1, h1.last() + seq!['\n']);
        assert(e.push('\n') =~= seq!['\n']);
        lemma_seg_cat(Some(h2), seq![d], seq![e] + split_nl(l));
        lemma_seg_sep(h2, d);
        let h3 = h2.push(e);
        lemma_page_no_sep(ps, n - 1);
        assert forall|i: int| 0 <= i < (seq![e] + split_nl(l)).len() implies !is_separator(
            #[trigger] (seq![e] + split_nl(l))[i],
        ) by {
            if i > 0 {
                assert((seq![e] + split_nl(l))[i] == split_nl(ps[n - 1])[i - 1]);
            }
        }
        lemma_seg_group(h3, seq![e] + split_nl(l));
        lemma_unlines_cat(seq![e], split_nl(l));
        lemma_unlines_split(l);
        let last = e + unlines(seq![e] + split_nl(l));
        assert(last =~= seq!['\n'] + l.push('\n'));
        let h = h3.update(h3.len() - 1, last);
        // the page before the last one
        let prev = h1.last();
        let pl = pre.last();
        assert(pl == ps[n - 2]);
        lemma_trim_ends(pl);
        if prev == pl.push('\n') {
            lemma_trim_pad(Seq::<char>::empty(), pl, seq!['\n', '\n']);
            assert(Seq::<char>::empty() + pl + seq!['\n', '\n'] =~= prev + seq!['\n']);
        } else {
            lemma_trim_pad(seq!['\n'], pl, seq!['\n', '\n']);
            assert(seq!['\n'] + pl + seq!['\n', '\n'] =~= prev + seq!['\n']);
        }
        lemma_trim_ends(l);
        lemma_trim_pad(seq!['\n'], l, seq!['\n']);
        assert(seq!['\n'] + l + seq!['\n'] =~= last);
        assert forall|i: int| 0 <= i < ps.len() implies trim(#[trigger] h[g.len() - 1 + i]) == ps[i] by {
            if i < n - 2 {
                assert(h[g.len() - 1 + i] == h1[g.len() - 1 + i]);
                assert(pre[i] == ps[i]);
            } else if i == n - 2 {
                assert(h[g.len() - 1 + i] == prev + seq!['\n']);
            } else {
                assert(h[g.len() - 1 + i] == last);
            }
        }
        assert forall|i: int| 0 <= i < g.len() - 1 implies h[i] == g[i] by {
            assert(h[i] == h1[i]);
        }
        assert(page_pieces(ps) == page_pieces(pre) + seq![e, d, e] + split_nl(l));
        assert(seg_from(Some(h2), seq![d] + (seq![e] + split_nl(l))) == Some(h));
        assert(seg_from(Some(h1), seq![e] + (seq![d] + (seq![e] + split_nl(l)))) == Some(h));
        assert(seg_from(Some(g), page_pieces(ps)) == Some(h));
        h
    }
}

/// Splitting a split document once more, after writing it out, gives the same
/// frontmatter and the same pages, on every document that `round_trips` admits.
/// (On the others a line ending in `'\r'` loses it, or a page gains a
/// separator, as for `"---\n---\n  ---\nx"`.)
#[verifier::rlimit(60)]
pub proof fn lemma_split_serialize_round_trip(text: Seq<char>)
    requires
        split_doc(text) matches Some(d) && round_trips(d.0, d.1),
    ensures
        split_doc(serialize(split_doc(text)->Some_0.0, split_doc(text)->Some_0.1)) == split_doc(text),
{
    lemma_dashes();
    let d = split_doc(text)->Some_0;
    let fm = d.0;
    let ps = d.1;
    let ls = lines(text);
    lemma_lines_pieces(text);
    lemma_segment_shape(ls);
    let g0 = segments(ls)->Some_0;
    assert(fm == g0[0]);
    // the pages are trimmed
    assert forall|j: int| 0 <= j < ps.len() implies trim(#[trigger] ps[j]) == ps[j] by {
        lemma_trim_idempotent(g0[j + 1]);
    }
    assert(ps.map_values(|p: Seq<char>| trim(p)) =~= ps);
    let jn = join(ps, page_break());
    let s = serialize(fm, ps);
    let e = Seq::<char>::empty();
    let dd = seq!['-', '-', '-'];
    // the frontmatter's lines
    let fl = split_nl(fm).drop_last();
    lemma_split_nonempty(fm);
    let rest = dd + seq!['\n'] + jn;
    assert(s =~= dd + seq!['\n'] + (fm + rest));
    lemma_split_cat(dd, fm + rest);
    if fm.len() == 0 {
        assert(fm + rest =~= rest);
        assert(fl =~= Seq::<Seq<char>>::empty());
        lemma_split_cat(dd, jn);
        assert(split_nl(s) =~= seq![dd] + fl + seq![dd] + split_nl(jn));
    } else {
        let f0 = fm.drop_last();
        assert(fm =~= f0 + seq!['\n'] + e);
        lemma_split_cat(f0, e);
        assert(fl =~= split_nl(f0));
        assert(fm + rest =~= f0 + seq!['\n'] + rest);
        lemma_split_cat(f0, rest);
        lemma_split_cat(dd, jn);
        assert(split_nl(s) =~= seq![dd] + fl + seq![dd] + split_nl(jn));
    }
    lemma_join_pieces(ps);
    let x = seq![dd] + fl + seq![dd] + page_pieces(ps);
    // every piece is clean, so the lines are the pieces
    lemma_page_pieces_ok(ps);
    assert forall|i: int| 0 <= i < split_nl(s).len() implies clean_line(#[trigger] split_nl(s)[i]) by {
        if 1 <= i < 1 + fl.len() {
            assert(split_nl(s)[i] == split_nl(fm)[i - 1]);
        } else if i >= 2 + fl.len() {
            assert(split_nl(s)[i] == page_pieces(ps)[i - 2 - fl.len()]);
        }
    }
    lemma_lines_split(s);
    // the frontmatter segment
    assert forall|i: int| 0 <= i < fl.len() implies !is_separator(#[trigger] fl[i]) by {
        assert(fl[i] == split_nl(g0[0])[i]);
    }
    lemma_segments_from(lines(s));
    assert(x =~= (seq![dd] + fl + seq![dd]) + page_pieces(ps));
    lemma_seg_cat(Some(seq![]), seq![dd] + fl + seq![dd], page_pieces(ps));
    assert(seq![dd] + fl + seq![dd] =~= (seq![dd] + fl) + seq![dd]);
    lemma_seg_cat(Some(seq![]), seq![dd] + fl, seq![dd]);
    lemma_seg_cat(Some(seq![]), seq![dd], fl);
    lemma_seg_sep(seq![], dd);
    assert(Seq::<Seq<char>>::empty().push(e) =~= seq![e]);
    lemma_seg_group(seq![e], fl);
    if fm.len() == 0 {
        assert(fm =~= e);
        assert(split_nl(fm) == seq![e]);
        assert(fl =~= Seq::<Seq<char>>::empty());
        assert(unlines(fl) == e);
        assert(e + unlines(fl) =~= fm);
    } else {
        lemma_unlines_split(fm.drop_last());
        assert(fm.drop_last().push('\n') =~= fm);
        assert(e + unlines(fl) =~= fm);
    }
    assert(seq![e].update(0, e + unlines(fl)) =~= seq![fm]);
    lemma_seg_sep(seq![fm], dd);
    assert(seq![fm].push(e) =~= seq![fm, e]);
    let h = lemma_page_segments(seq![fm, e], ps);
    assert(segments(x) == Some(h)) by {
        lemma_segments_from(x);
    }
    if x.last().len() == 0 {
        // the last page is empty, and the final empty line is not read
        assert(x.last() == split_nl(ps.last()).last()) by {
            if ps.len() == 1 {
                assert(page_pieces(ps) == split_nl(ps[0]));
            }
        }
        lemma_last_piece(ps.last());
        lemma_trim_ends(ps.last());
        assert(ps.last().len() == 0);
        let y = x.drop_last();
        assert(lines(s) == y);
        lemma_segments_from(y);
        assert(x.last() =~= e);
        assert(x =~= y.push(e));
        assert(seg_from(Some(seq![]), x) == seg_step(seg_from(Some(seq![]), y), e));
        let h0 = seg_from(Some(seq![]), y)->Some_0;
        assert(h == h0.update(h0.len() - 1, h0.last() + e.push('\n')));
        assert(h0.len() == h.len());
        assert(all_ws(h0.last())) by {
            assert forall|i: int| 0 <= i < h0.last().len() implies is_ws(#[trigger] h0.last()[i]) by {
                assert(h0.last()[i] == h.last()[i]);
                if h.last() == ps.last().push('\n') {
                    assert(h.last() =~= seq!['\n']);
                } else {
                    assert(h.last() =~= seq!['\n', '\n']);
                }
            }
        }
        lemma_trim_pad(h0.last(), e, e);
        assert(h0.last() + e + e =~= h0.last());
        assert(h0.subrange(1, h0.len() as int).map_values(|p: Seq<char>| trim(p)) =~= ps) by {
            assert forall|i: int| 0 <= i < ps.len() implies h0.subrange(1, h0.len() as int).map_values(
                |p: Seq<char>| trim(p),
            )[i] == ps[i] by {
                if i < ps.len() - 1 {
                    assert(h0[1 + i] == h[1 + i]);
                }
            }
        }
        assert(h0[0] == h[0]);
    } else {
        assert(lines(s) == x);
        assert(h.subrange(1, h.len() as int).map_values(|p: Seq<char>| trim(p)) =~= ps) by {
            assert forall|i: int| 0 <= i < ps.len() implies h.subrange(1, h.len() as int).map_values(
                |p: Seq<char>| trim(p),
            )[i] == ps[i] by {
                assert(trim(h[1 + i]) == ps[i]);
            }
        }
    }
}

/// The last piece of a text is empty only when the text is, or ends with `'\n'`.
proof fn lemma_last_piece(p: Seq<char>)
    ensures
        split_nl(p).last().len() == 0 ==> p.len() == 0 || p.last() == '\n',
    decreases p.len(),
{
    lemma_split_nonempty(p);
    let k = lemma_no_nl(p);
    if k < p.len() {
        let r = p.subrange(k + 1, p.len() as int);
        lemma_split_nonempty(r);
        lemma_last_piece(r);
        assert(split_nl(p).last() == split_nl(r).last());
        if r.len() == 0 {
            assert(p.last() == p[k]);
        } else {
            assert(p.last() == r.last());
        }
    }
}

} // verus!
