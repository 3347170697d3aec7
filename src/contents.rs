//! A slide document: a frontmatter block followed by hyphen-delimited pages.
use vstd::prelude::*;

use crate::bib::{
    bib_tags, dedup, find_tag, flatten, index_tags, lemma_dedup_push, lemma_index_tags_distinct,
    lemma_order_first, lemma_page_refs_in_index, lemma_unknown_tag_unnumbered, is_first, number_in, page_refs, page_refs_exec,
    push_new, refs_of, resolve_all, tag_chars, BibEntry, BibIndex,
};
use crate::cite::{cited_tags, cites_from, lemma_rewrite_keeps_scanned, rewrite, rewrite_citations};
use crate::footnote::{
    lemma_find_tag_absent, bibliography, bibliography_exec, block_lines, div_close, div_open, lemma_block_exact,
    lemma_purge_clean, purge, span_at, with_footnote, with_footnote_exec,
};
use crate::round_trip::{lemma_split_serialize_round_trip, round_trips};
use crate::scan::find_from;
use crate::text::{
    chars_of, line_bounds, lines, push_char, push_range, range_of, string_of, trim, trimmed,
};

verus! {

/// A line made of three or more hyphens and nothing else.
pub open spec fn is_separator(l: Seq<char>) -> bool {
    l.len() >= 3 && forall|i: int| 0 <= i < l.len() ==> l[i] == '-'
}

/// The segments that a run of lines opens: each separator starts a new segment,
/// each other line is appended, with a `'\n'`, to the last one. `None` when a
/// content line comes before the first separator.
pub open spec fn segments(ls: Seq<Seq<char>>) -> Option<Seq<Seq<char>>>
    decreases ls.len(),
{
    if ls.len() == 0 {
        Some(seq![])
    } else {
        match segments(ls.drop_last()) {
            None => None,
            Some(acc) => {
                let l = ls.last();
                if is_separator(l) {
                    Some(acc.push(seq![]))
                } else if acc.len() == 0 {
                    None
                } else {
                    Some(acc.update(acc.len() - 1, acc.last() + l.push('\n')))
                }
            },
        }
    }
}

/// The frontmatter and the trimmed pages of a raw document, or `None` when the
/// frontmatter is missing.
pub open spec fn split_doc(s: Seq<char>) -> Option<(Seq<char>, Seq<Seq<char>>)> {
    match segments(lines(s)) {
        None => None,
        Some(g) => if g.len() < 2 {
            None
        } else {
            Some((g[0], g.subrange(1, g.len() as int).map_values(|p: Seq<char>| trim(p))))
        },
    }
}

/// `ps` joined with `sep` between neighbours.
pub open spec fn join(ps: Seq<Seq<char>>, sep: Seq<char>) -> Seq<char>
    decreases ps.len(),
{
    if ps.len() == 0 {
        seq![]
    } else if ps.len() == 1 {
        ps[0]
    } else {
        join(ps.drop_last(), sep) + sep + ps.last()
    }
}

/// `"---\n"`
pub open spec fn fence() -> Seq<char> {
    seq!['-', '-', '-', '\n']
}

/// `"\n\n---\n\n"`, what stands between two pages.
pub open spec fn page_break() -> Seq<char> {
    seq!['\n', '\n', '-', '-', '-', '\n', '\n']
}

/// A document written out: the frontmatter between two fences, then the
/// trimmed pages joined by page breaks.
pub open spec fn serialize(fm: Seq<char>, pages: Seq<Seq<char>>) -> Seq<char> {
    fence() + fm + fence() + join(pages.map_values(|p: Seq<char>| trim(p)), page_break())
}

/// Why a document could not be split.
#[derive(Debug, PartialEq, Eq, Structural)]
pub enum ContentsError {
    /// Fewer than two segments, or content before the first separator.
    MissingFrontmatter,
}

/// One page of a slide.
#[derive(Debug)]
pub struct SlidePage {
    /// Contents of the page.
    pub contents: String,
}

/// Contents of a slide.
#[derive(Debug)]
pub struct SlideContents {
    /// Frontmatter, verbatim.
    pub frontmatter: String,
    /// Pages of the slide, in document order.
    pub pages: Vec<SlidePage>,
}

impl SlideContents {
    /// The text of each page.
    pub open spec fn texts(&self) -> Seq<Seq<char>> {
        self.pages@.map_values(|p: SlidePage| p.contents@)
    }

    /// Splits a raw document into its frontmatter and trimmed pages.
    #[verifier::rlimit(40)]
    pub fn parse(value: &str) -> (r: Result<SlideContents, ContentsError>)
        ensures
            match split_doc(value@) {
                None => r == Err::<SlideContents, ContentsError>(
                    ContentsError::MissingFrontmatter,
                ),
                Some(d) => r is Ok && r->Ok_0.frontmatter@ == d.0 && r->Ok_0.texts() == d.1,
            },
    {
        let v = chars_of(value);
        let lb = line_bounds(&v);
        let ghost ls = lines(v@);
        let mut done: Vec<Vec<char>> = Vec::new();
        let mut cur: Vec<char> = Vec::new();
        let mut started = false;
        let mut k: usize = 0;
        while k < lb.len()
            invariant
                k <= lb.len(),
                ls == lines(value@),
                ls == lb@.map_values(|b: (usize, usize)| range_of(v@, b)),
                forall|j: int| 0 <= j < lb.len() ==> (#[trigger] lb[j]).0 <= lb[j].1 <= v.len(),
                segments(ls.take(k as int)) == if started {
                    Some(done@.map_values(|x: Vec<char>| x@).push(cur@))
                } else {
                    Some(Seq::<Seq<char>>::empty())
                },
                !started ==> done@.len() == 0 && cur@.len() == 0,
            decreases lb.len() - k,
        {
            let (a, b) = lb[k];
            let ghost l = ls[k as int];
            assert(l == v@.subrange(a as int, b as int));
            assert(ls.take(k + 1).drop_last() =~= ls.take(k as int));
            assert(ls.take(k + 1).last() == l);
            if is_separator_at(&v, a, b) {
                if started {
                    let ghost before = done@;
                    let ghost last = cur@;
                    done.push(cur);
                    cur = Vec::new();
                    assert(done@.map_values(|x: Vec<char>| x@) =~= before.map_values(
                        |x: Vec<char>| x@,
                    ).push(last));
                }
                started = true;
                assert(cur@ =~= seq![]);
            } else {
                if !started {
                    proof {
                        assert(segments(ls.take(k + 1)) is None);
                        lemma_segments_none(ls, k + 1, ls.len() as int);
                        assert(ls.take(ls.len() as int) =~= ls);
                    }
                    return Err(ContentsError::MissingFrontmatter);
                }
                let ghost old_cur = cur@;
                let mut i = a;
                while i < b
                    invariant
                        a <= i <= b <= v.len(),
                        cur@ == old_cur + v@.subrange(a as int, i as int),
                    decreases b - i,
                {
                    cur.push(v[i]);
                    assert(v@.subrange(a as int, i + 1) =~= v@.subrange(a as int, i as int).push(
                        v@[i as int],
                    ));
                    i = i + 1;
                }
                cur.push('\n');
                let ghost acc = done@.map_values(|x: Vec<char>| x@).push(old_cur);
                assert(done@.map_values(|x: Vec<char>| x@).push(cur@) =~= acc.update(
                    acc.len() - 1,
                    acc.last() + l.push('\n'),
                ));
            }
            k = k + 1;
        }
        assert(ls.take(lb.len() as int) =~= ls);
        if !started || done.len() == 0 {
            return Err(ContentsError::MissingFrontmatter);
        }
        let ghost g = done@.map_values(|x: Vec<char>| x@).push(cur@);
        done.push(cur);
        assert(done@.map_values(|x: Vec<char>| x@) =~= g);
        let frontmatter = string_of(&done[0]);
        let mut pages: Vec<SlidePage> = Vec::new();
        let mut j: usize = 1;
        while j < done.len()
            invariant
                1 <= j <= done.len(),
                done@.map_values(|x: Vec<char>| x@) == g,
                pages@.map_values(|p: SlidePage| p.contents@) == g.subrange(1, j as int).map_values(
                    |p: Seq<char>| trim(p),
                ),
            decreases done.len() - j,
        {
            let t = trimmed(&done[j]);
            let ghost before = pages@;
            assert(done@[j as int]@ == g[j as int]);
            pages.push(SlidePage { contents: t });
            assert(g.subrange(1, j + 1) =~= g.subrange(1, j as int).push(g[j as int]));
            assert(pages@.map_values(|p: SlidePage| p.contents@) =~= before.map_values(
                |p: SlidePage| p.contents@,
            ).push(t@));
            assert(pages@.map_values(|p: SlidePage| p.contents@) =~= g.subrange(
                1,
                j + 1,
            ).map_values(|p: Seq<char>| trim(p)));
            j = j + 1;
        }
        Ok(SlideContents { frontmatter, pages })
    }
}

impl SlideContents {
    /// The document written out again: `"---\n"`, the frontmatter, `"---\n"`,
    /// then the trimmed pages joined by `"\n\n---\n\n"`.
    pub fn to_marp(&self) -> (r: String)
        ensures
            r@ == serialize(self.frontmatter@, self.texts()),
    {
        let mut s = String::new();
        push_fence(&mut s);
        let fm = chars_of(self.frontmatter.as_str());
        push_range(&mut s, &fm, 0, fm.len());
        assert(fm@.subrange(0, fm@.len() as int) =~= fm@);
        push_fence(&mut s);
        let ghost head = s@;
        let ghost ts = self.texts().map_values(|p: Seq<char>| trim(p));
        let mut i: usize = 0;
        while i < self.pages.len()
            invariant
                i <= self.pages.len(),
                ts == self.texts().map_values(|p: Seq<char>| trim(p)),
                s@ == head + join(ts.take(i as int), page_break()),
            decreases self.pages.len() - i,
        {
            if i > 0 {
                push_page_break(&mut s);
            }
            let t = trimmed(&chars_of(self.pages[i].contents.as_str()));
            let tv = chars_of(t.as_str());
            push_range(&mut s, &tv, 0, tv.len());
            assert(tv@.subrange(0, tv@.len() as int) =~= tv@);
            assert(ts.take(i + 1).drop_last() =~= ts.take(i as int));
            assert(ts.take(i as int + 1).last() == tv@);
            if i == 0 {
                assert(ts.take(1) =~= seq![tv@]);
            }
            i = i + 1;
        }
        assert(ts.take(self.pages.len() as int) =~= ts);
        s
    }
}

fn push_fence(s: &mut String)
    ensures
        final(s)@ == old(s)@ + fence(),
{
    push_char(s, '-');
    push_char(s, '-');
    push_char(s, '-');
    push_char(s, '\n');
    assert(s@ =~= old(s)@ + fence());
}

fn push_page_break(s: &mut String)
    ensures
        final(s)@ == old(s)@ + page_break(),
{
    push_char(s, '\n');
    push_char(s, '\n');
    push_fence(s);
    push_char(s, '\n');
    assert(s@ =~= old(s)@ + page_break());
}

/// A page once its footnote block is brought up to date with `refs`; a page
/// that cites nothing is left as it is.
pub open spec fn with_references(c: Seq<char>, refs: Seq<BibEntry>, idx: Seq<Seq<char>>, page: nat) -> Seq<char> {
    if refs.len() == 0 {
        c
    } else {
        with_footnote(c, bibliography(refs, idx, page))
    }
}

/// A page, numbered `page`, after the bibliography update: its citation links
/// numbered by `idx`, then its footnote block regenerated from what it cites.
pub open spec fn updated_page(s: Seq<char>, bib: Seq<BibEntry>, idx: Seq<Seq<char>>, page: nat) -> Seq<char> {
    with_references(rewrite(s, idx, page), refs_of(s, bib), idx, page)
}

/// All pages after the bibliography update, page ids counting from 1.
pub open spec fn updated_pages(pages: Seq<Seq<char>>, bib: Seq<BibEntry>) -> Seq<Seq<char>> {
    pages.map(|i: int, p: Seq<char>| updated_page(p, bib, index_tags(pages, bib), (i + 1) as nat))
}

/// Regenerating the footnote of a page that cites something and has a footnote
/// container: the container then holds what it held with every line that held
/// an old entry removed, and after it exactly the fresh lines for the page's
/// citations; no entry is left in the part that was kept. Outside the container
/// nothing changes.
pub proof fn lemma_footnote_regenerated(
    c: Seq<char>,
    refs: Seq<BibEntry>,
    idx: Seq<Seq<char>>,
    page: nat,
    o: int,
    k: int,
)
    requires
        refs.len() > 0,
        find_from(c, div_open(), 0) == Some(o),
        find_from(c, div_close(), o + div_open().len()) == Some(k),
    ensures
        with_references(c, refs, idx, page) == c.subrange(0, o + div_open().len()) + purge(
            c.subrange(o + div_open().len(), k),
        ) + bibliography(refs, idx, page) + c.subrange(k, c.len() as int),
        forall|q: int|
            0 <= q ==> (#[trigger] span_at(purge(c.subrange(o + div_open().len(), k)), q)) is None,
{
    lemma_purge_clean(c.subrange(o + div_open().len(), k));
}

/// In the bibliography update, the footnote block of each page that cites
/// something holds exactly one line for each entry the page cites: none left
/// out, none twice.
pub proof fn lemma_page_footnote_exact(pages: Seq<Seq<char>>, bib: Seq<BibEntry>, j: int)
    requires
        0 <= j < pages.len(),
    ensures
        block_lines(refs_of(pages[j], bib), index_tags(pages, bib), (j + 1) as nat).len()
            == refs_of(pages[j], bib).len(),
{
    lemma_page_refs_in_index(pages, bib, j);
    lemma_index_tags_distinct(pages, bib);
    lemma_block_exact(refs_of(pages[j], bib), index_tags(pages, bib), (j + 1) as nat);
}

impl SlidePage {
    /// Numbers the citation links of this page, whose id is `page_id`, by
    /// `bib_index`; links whose tag is not numbered are left as they are.
    pub fn update_references(&mut self, page_id: usize, bib_index: &BibIndex)
        ensures
            final(self).contents@ == rewrite(old(self).contents@, bib_index@, page_id as nat),
    {
        self.contents = rewrite_citations(self.contents.as_str(), bib_index, page_id);
    }

    /// Regenerates the footnote block of this page from `references`; does
    /// nothing when `references` is empty.
    pub fn update_bib_footnote(&mut self, page_id: usize, references: &[&BibEntry], bib_index: &BibIndex)
        ensures
            final(self).contents@ == with_references(
                old(self).contents@,
                references@.map_values(|e: &BibEntry| *e),
                bib_index@,
                page_id as nat,
            ),
    {
        if references.len() == 0 {
            return;
        }
        let block = Self::generate_new_bibliography(page_id, references, bib_index);
        let c = chars_of(self.contents.as_str());
        let b = chars_of(block.as_str());
        self.contents = with_footnote_exec(&c, &b);
    }

    /// The footnote lines of `references` for page `page_id`, by ascending
    /// number, joined by `'\n'`, with two line breaks after them.
    pub fn generate_new_bibliography(page_id: usize, references: &[&BibEntry], bib_index: &BibIndex) -> (r: String)
        ensures
            r@ == bibliography(references@.map_values(|e: &BibEntry| *e), bib_index@, page_id as nat),
    {
        bibliography_exec(page_id, references, bib_index)
    }
    /// The bibliography entries that this page cites, each once, in order of
    /// first citation; tags that no entry holds are passed over.
    pub fn enumerate_references<'a>(&self, bib_entries: &'a [BibEntry]) -> (r: Vec<&'a BibEntry>)
        ensures
            r@.map_values(|e: &BibEntry| *e) == refs_of(self.contents@, bib_entries@),
    {
        let bt = tag_chars(bib_entries);
        let v = chars_of(self.contents.as_str());
        let ks = page_refs_exec(&v, &bt);
        let ghost want = refs_of(self.contents@, bib_entries@);
        let mut r: Vec<&'a BibEntry> = Vec::new();
        let mut i: usize = 0;
        while i < ks.len()
            invariant
                i <= ks.len(),
                bt@.len() == bib_entries@.len(),
                forall|j: int| 0 <= j < ks.len() ==> ks[j] < bt.len(),
                ks@.map_values(|k: usize| k as int) == page_refs(
                    self.contents@,
                    bib_tags(bib_entries@),
                ),
                want == refs_of(self.contents@, bib_entries@),
                r@.map_values(|e: &BibEntry| *e) == want.take(i as int),
            decreases ks.len() - i,
        {
            let ghost before = r@;
            r.push(&bib_entries[ks[i]]);
            assert(want.take(i + 1) =~= want.take(i as int).push(want[i as int]));
            assert(r@.map_values(|e: &BibEntry| *e) =~= before.map_values(|e: &BibEntry| *e).push(
                bib_entries@[ks[i as int] as int],
            ));
            i = i + 1;
        }
        assert(want.take(ks.len() as int) =~= want);
        r
    }
}

impl SlideContents {
    /// For each page, the entries it cites (see `SlidePage::enumerate_references`).
    pub fn enumerate_bib_entries<'a>(&self, bib_entries: &'a [BibEntry]) -> (r: Vec<Vec<&'a BibEntry>>)
        ensures
            r.len() == self.pages.len(),
            forall|i: int|
                0 <= i < r.len() ==> (#[trigger] r[i])@.map_values(|e: &BibEntry| *e) == refs_of(
                    self.pages[i].contents@,
                    bib_entries@,
                ),
    {
        let mut r: Vec<Vec<&'a BibEntry>> = Vec::new();
        let mut i: usize = 0;
        while i < self.pages.len()
            invariant
                i <= self.pages.len(),
                r.len() == i,
                forall|j: int|
                    0 <= j < i ==> (#[trigger] r[j])@.map_values(|e: &BibEntry| *e) == refs_of(
                        self.pages[j].contents@,
                        bib_entries@,
                    ),
            decreases self.pages.len() - i,
        {
            r.push(self.pages[i].enumerate_references(bib_entries));
            i = i + 1;
        }
        r
    }

    /// Numbers the citations of every page and regenerates each page's footnote
    /// block, page ids counting from 1.
    pub fn modify_bibliography(&mut self, bib_entries: &[BibEntry])
        ensures
            final(self).frontmatter == old(self).frontmatter,
            final(self).texts() == updated_pages(old(self).texts(), bib_entries@),
    {
        let entries_each_page = self.enumerate_bib_entries(bib_entries);
        let bib_index = self.generate_bib_index(bib_entries);
        let ghost olds = self.texts();
        let ghost want = updated_pages(olds, bib_entries@);
        let mut pages: Vec<SlidePage> = Vec::new();
        let mut i: usize = 0;
        while i < self.pages.len()
            invariant
                i <= self.pages.len(),
                olds == self.texts(),
                want == updated_pages(olds, bib_entries@),
                bib_index@ == index_tags(olds, bib_entries@),
                entries_each_page.len() == self.pages.len(),
                forall|j: int|
                    0 <= j < entries_each_page.len() ==> (#[trigger] entries_each_page[j])@.map_values(
                        |e: &BibEntry| *e,
                    ) == refs_of(self.pages[j].contents@, bib_entries@),
                pages@.map_values(|p: SlidePage| p.contents@) == want.take(i as int),
            decreases self.pages.len() - i,
        {
            let mut page = SlidePage { contents: self.pages[i].contents.clone() };
            page.update_references(i + 1, &bib_index);
            page.update_bib_footnote(i + 1, entries_each_page[i].as_slice(), &bib_index);
            assert(page.contents@ == want[i as int]);
            let ghost before = pages@;
            pages.push(page);
            assert(want.take(i + 1) =~= want.take(i as int).push(want[i as int]));
            assert(pages@.map_values(|p: SlidePage| p.contents@) =~= before.map_values(
                |p: SlidePage| p.contents@,
            ).push(want[i as int]));
            i = i + 1;
        }
        assert(want.take(self.pages.len() as int) =~= want);
        self.pages = pages;
    }

    /// Numbers the cited entries in order of first citation, scanning the pages
    /// in order and each page from its start.
    pub fn generate_bib_index(&self, bib_entries: &[BibEntry]) -> (r: BibIndex)
        ensures
            r@ == index_tags(self.texts(), bib_entries@),
    {
        let bt = tag_chars(bib_entries);
        let ghost btv = bib_tags(bib_entries@);
        let ghost prs = self.texts().map_values(|p: Seq<char>| page_refs(p, btv));
        let mut order: Vec<usize> = Vec::new();
        let mut i: usize = 0;
        while i < self.pages.len()
            invariant
                i <= self.pages.len(),
                bt@.map_values(|t: Vec<char>| t@) == btv,
                btv == bib_tags(bib_entries@),
                prs == self.texts().map_values(|p: Seq<char>| page_refs(p, btv)),
                order@.map_values(|k: usize| k as int) == dedup(flatten(prs.take(i as int))),
                forall|j: int| 0 <= j < order.len() ==> order[j] < bt.len(),
            decreases self.pages.len() - i,
        {
            let refs = page_refs_exec(&chars_of(self.pages[i].contents.as_str()), &bt);
            let ghost rv = refs@.map_values(|k: usize| k as int);
            let ghost base = flatten(prs.take(i as int));
            assert(rv == prs[i as int]);
            let mut j: usize = 0;
            assert(base + rv.take(0) =~= base);
            while j < refs.len()
                invariant
                    j <= refs.len(),
                    rv == refs@.map_values(|k: usize| k as int),
                    forall|m: int| 0 <= m < refs.len() ==> refs[m] < bt.len(),
                    forall|m: int| 0 <= m < order.len() ==> order[m] < bt.len(),
                    order@.map_values(|k: usize| k as int) == dedup(base + rv.take(j as int)),
                decreases refs.len() - j,
            {
                proof {
                    lemma_dedup_push(base + rv.take(j as int), rv[j as int]);
                    assert(base + rv.take(j + 1) =~= (base + rv.take(j as int)).push(rv[j as int]));
                }
                let ghost old_order = order@;
                push_new(&mut order, refs[j]);
                proof {
                    assert forall|m: int| 0 <= m < order.len() implies order[m] < bt.len() by {
                        if m < old_order.len() {
                            assert(order[m] == old_order[m]);
                        }
                    }
                }
                j = j + 1;
            }
            assert(prs.take(i + 1).drop_last() =~= prs.take(i as int));
            assert(rv.take(refs.len() as int) =~= rv);
            i = i + 1;
        }
        assert(prs.take(self.pages.len() as int) =~= prs);
        proof {
            lemma_order_first(self.texts(), btv);
            let ov = order@.map_values(|k: usize| k as int);
            assert forall|a: int, b: int| 0 <= a < b < order.len() implies bt@[order[a] as int]@
                != bt@[order[b] as int]@ by {
                assert(ov[a] == order[a] as int && ov[b] == order[b] as int);
                assert(is_first(btv, ov[a]) && is_first(btv, ov[b]));
                assert(btv[ov[a]] == bt@[order[a] as int]@);
                assert(btv[ov[b]] == bt@[order[b] as int]@);
            }
        }
        BibIndex::from_positions(&order, &bt)
    }
}

/// The whole bibliography update of a raw document: split it, number its
/// citations and regenerate its footnotes, write it out again.
pub open spec fn updated_document(s: Seq<char>, bib: Seq<BibEntry>) -> Option<Seq<char>> {
    match split_doc(s) {
        None => None,
        Some(d) => Some(serialize(d.0, updated_pages(d.1, bib))),
    }
}

/// The bibliography update of a raw document, as text to be saved in its place.
pub fn update_document(text: &str, bib_entries: &[BibEntry]) -> (r: Result<String, ContentsError>)
    ensures
        match updated_document(text@, bib_entries@) {
            None => r == Err::<String, ContentsError>(ContentsError::MissingFrontmatter),
            Some(t) => r is Ok && r->Ok_0@ == t,
        },
{
    match SlideContents::parse(text) {
        Err(e) => Err(e),
        Ok(mut contents) => {
            contents.modify_bibliography(bib_entries);
            Ok(contents.to_marp())
        },
    }
}

/// A page that cites no entry of the bibliography is left as it is by the
/// update: none of its links has a numbered tag, and its footnote stays.
proof fn lemma_uncited_page_kept(p: Seq<char>, pages: Seq<Seq<char>>, bib: Seq<BibEntry>, page: nat)
    requires
        refs_of(p, bib).len() == 0,
    ensures
        updated_page(p, bib, index_tags(pages, bib), page) == p,
{
    let bt = bib_tags(bib);
    let tags = cited_tags(p);
    let cs = cites_from(p, 0);
    lemma_dedup_empty(resolve_all(tags, bt));
    lemma_resolve_empty(tags, bt);
    assert forall|m: int|
        #![trigger cs[m]]
        0 <= m < cs.len() implies number_in(index_tags(pages, bib), p.subrange(cs[m].0, cs[m].1))
        is None by {
        assert(tags[m] == p.subrange(cs[m].0, cs[m].1));
        lemma_find_tag_absent(bt, tags[m], 0);
        if bt.contains(tags[m]) {
            let w = choose|w: int| 0 <= w < bt.len() && bt[w] == tags[m];
        }
        lemma_unknown_tag_unnumbered(pages, bib, tags[m]);
    }
    lemma_rewrite_keeps_scanned(p, 0, index_tags(pages, bib), page);
    assert(p.subrange(0, p.len() as int) =~= p);
}

proof fn lemma_dedup_empty(xs: Seq<int>)
    requires
        dedup(xs).len() == 0,
    ensures
        xs.len() == 0,
{
    if xs.len() > 0 {
        let d = dedup(xs.drop_last());
        if d.contains(xs.last()) {
            assert(d.len() > 0);
        }
    }
}

proof fn lemma_resolve_empty(tags: Seq<Seq<char>>, bt: Seq<Seq<char>>)
    requires
        resolve_all(tags, bt).len() == 0,
    ensures
        forall|m: int| 0 <= m < tags.len() ==> find_tag(bt, #[trigger] tags[m], 0) is None,
    decreases tags.len(),
{
    if tags.len() > 0 {
        let r = resolve_all(tags.drop_last(), bt);
        if find_tag(bt, tags.last(), 0) is Some {
            assert(resolve_all(tags, bt).len() == r.len() + 1);
        }
        lemma_resolve_empty(tags.drop_last(), bt);
        assert forall|m: int| 0 <= m < tags.len() implies find_tag(bt, #[trigger] tags[m], 0) is None by {
            if m < tags.len() - 1 {
                assert(tags.drop_last()[m] == tags[m]);
            }
        }
    }
}

/// Running the bibliography update on its own output gives that output again,
/// for documents that write out and split back unchanged (`round_trips`) and
/// none of whose pages cites an entry of the bibliography. (Where a page does
/// cite an entry, a second run gives other text: the blank lines that followed
/// the old entries in the container now stand before the new ones.)
pub proof fn lemma_update_idempotent_without_citations(text: Seq<char>, bib: Seq<BibEntry>)
    requires
        split_doc(text) matches Some(d) && round_trips(d.0, d.1),
        forall|j: int|
            0 <= j < split_doc(text)->Some_0.1.len() ==> (#[trigger] refs_of(
                split_doc(text)->Some_0.1[j],
                bib,
            )).len() == 0,
    ensures
        updated_document(text, bib) matches Some(t) && updated_document(t, bib) == Some(t),
{
    let d = split_doc(text)->Some_0;
    let ps = d.1;
    let idx = index_tags(ps, bib);
    assert forall|j: int| 0 <= j < ps.len() implies #[trigger] updated_page(
        ps[j],
        bib,
        idx,
        (j + 1) as nat,
    ) == ps[j] by {
        assert(refs_of(ps[j], bib).len() == 0);
        lemma_uncited_page_kept(ps[j], ps, bib, (j + 1) as nat);
    }
    assert(updated_pages(ps, bib) =~= ps);
    lemma_split_serialize_round_trip(text);
}

impl<'a> TryFrom<&'a str> for SlideContents {
    type Error = ContentsError;

    /// Splits a raw document into its frontmatter and trimmed pages (see
    /// `SlideContents::parse`).
    fn try_from(value: &'a str) -> (r: Result<SlideContents, ContentsError>)
        ensures
            match split_doc(value@) {
                None => r == Err::<SlideContents, ContentsError>(
                    ContentsError::MissingFrontmatter,
                ),
                Some(d) => r is Ok && r->Ok_0.frontmatter@ == d.0 && r->Ok_0.texts() == d.1,
            },
    {
        SlideContents::parse(value)
    }
}

// A `SlideContents` cannot be written as a spec value, so the trait's own
// specification is switched off; the `ensures` of `try_from` above states the
// result.
impl<'a> vstd::std_specs::convert::TryFromSpecImpl<&'a str> for SlideContents {
    open spec fn obeys_try_from_spec() -> bool {
        false
    }

    open spec fn try_from_spec(v: &'a str) -> Result<SlideContents, ContentsError> {
        vstd::pervasive::arbitrary()
    }
}

/// Once content has come before the first separator, no later line mends it.
proof fn lemma_segments_none(ls: Seq<Seq<char>>, n: int, m: int)
    requires
        0 <= n <= m <= ls.len(),
        segments(ls.take(n)) is None,
    ensures
        segments(ls.take(m)) is None,
    decreases m - n,
{
    if m > n {
        lemma_segments_none(ls, n, m - 1);
        assert(ls.take(m).drop_last() =~= ls.take(m - 1));
    }
}

/// Whether `v[a..b]` is a separator line.
fn is_separator_at(v: &Vec<char>, a: usize, b: usize) -> (r: bool)
    requires
        a <= b <= v.len(),
    ensures
        r == is_separator(v@.subrange(a as int, b as int)),
{
    if b - a < 3 {
        return false;
    }
    let mut i = a;
    while i < b
        invariant
            a <= i <= b <= v.len(),
            forall|j: int| a <= j < i ==> v@[j] == '-',
        decreases b - i,
    {
        if v[i] != '-' {
            assert(v@.subrange(a as int, b as int)[i - a] != '-');
            return false;
        }
        i = i + 1;
    }
    true
}

} // verus!
