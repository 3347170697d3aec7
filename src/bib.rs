//! Bibliography entries, the resolution of cited tags against them, and the
//! document-wide numbering of the entries cited.
use vstd::prelude::*;

use crate::cite::{cited_tags, cites, cites_from};
use crate::text::{chars_of, copy_chars, decimal, push_decimal, push_range};

verus! {

/// A bibliography entry.
#[derive(Debug, Clone, PartialEq, Eq, Hash)]
pub struct BibEntry {
    /// Citation tag.
    pub tag: String,
    /// Title of the reference.
    pub title: String,
    /// Authors of the reference.
    pub authors: Option<String>,
    /// Year of the reference.
    pub year: u16,
    /// Conference or journal name.
    pub venue: Option<String>,
    /// URL.
    pub url: Option<String>,
}

/// `o` followed by `suffix`, or nothing when `o` is absent.
pub open spec fn opt_then(o: Option<String>, suffix: Seq<char>) -> Seq<char> {
    match o {
        Some(a) => a@ + suffix,
        None => seq![],
    }
}

/// `prefix` followed by `o`, or nothing when `o` is absent.
pub open spec fn then_opt(prefix: Seq<char>, o: Option<String>) -> Seq<char> {
    match o {
        Some(a) => prefix + a@,
        None => seq![],
    }
}

/// `"<authors>. <title>. <venue>, <year>. <url>"`, each optional part left out
/// with its punctuation when absent.
pub open spec fn entry_text(e: BibEntry) -> Seq<char> {
    opt_then(e.authors, ". "@) + e.title@ + ". "@ + opt_then(e.venue, ", "@) + decimal(
        e.year as nat,
    ) + then_opt(". "@, e.url)
}

/// Appends `t` to `s`.
pub fn push_str(s: &mut String, t: &str)
    ensures
        final(s)@ == old(s)@ + t@,
{
    let v = chars_of(t);
    push_range(s, &v, 0, v.len());
    assert(v@.subrange(0, v@.len() as int) =~= v@);
}

impl BibEntry {
    /// The entry as it is listed in a footnote.
    pub fn format(&self) -> (r: String)
        ensures
            r@ == entry_text(*self),
    {
        let mut entry = String::new();
        if let Some(authors) = &self.authors {
            push_str(&mut entry, authors.as_str());
            push_str(&mut entry, ". ");
        }
        push_str(&mut entry, self.title.as_str());
        push_str(&mut entry, ". ");
        if let Some(venue) = &self.venue {
            push_str(&mut entry, venue.as_str());
            push_str(&mut entry, ", ");
        }
        push_decimal(&mut entry, self.year as usize);
        if let Some(url) = &self.url {
            push_str(&mut entry, ". ");
            push_str(&mut entry, url.as_str());
        }
        assert(entry@ =~= entry_text(*self));
        entry
    }
}

/// The tags of a bibliography, in order.
pub open spec fn bib_tags(bib: Seq<BibEntry>) -> Seq<Seq<char>> {
    bib.map_values(|e: BibEntry| e.tag@)
}

/// The first position at or after `i` where `ts` holds `t`.
pub open spec fn find_tag(ts: Seq<Seq<char>>, t: Seq<char>, i: int) -> Option<int>
    decreases ts.len() - i,
{
    if i < 0 || i >= ts.len() {
        None
    } else if ts[i] == t {
        Some(i)
    } else {
        find_tag(ts, t, i + 1)
    }
}

/// For each tag in turn, the first bibliography position holding it; tags that
/// no entry holds are left out.
pub open spec fn resolve_all(tags: Seq<Seq<char>>, bt: Seq<Seq<char>>) -> Seq<int>
    decreases tags.len(),
{
    if tags.len() == 0 {
        seq![]
    } else {
        let r = resolve_all(tags.drop_last(), bt);
        match find_tag(bt, tags.last(), 0) {
            Some(k) => r.push(k),
            None => r,
        }
    }
}

/// `xs` with every repeat of an earlier element removed.
pub open spec fn dedup(xs: Seq<int>) -> Seq<int>
    decreases xs.len(),
{
    if xs.len() == 0 {
        seq![]
    } else {
        let d = dedup(xs.drop_last());
        if d.contains(xs.last()) {
            d
        } else {
            d.push(xs.last())
        }
    }
}

/// The bibliography positions that a page cites, each once, in order of first
/// citation.
pub open spec fn page_refs(s: Seq<char>, bt: Seq<Seq<char>>) -> Seq<int> {
    dedup(resolve_all(cited_tags(s), bt))
}

/// The sequences of `xss` one after another.
pub open spec fn flatten(xss: Seq<Seq<int>>) -> Seq<int>
    decreases xss.len(),
{
    if xss.len() == 0 {
        seq![]
    } else {
        flatten(xss.drop_last()) + xss.last()
    }
}

/// The bibliography positions cited anywhere in the pages, each once, in order of
/// first citation: the entry at position `k` of this sequence has number `k + 1`.
pub open spec fn global_order(pages: Seq<Seq<char>>, bt: Seq<Seq<char>>) -> Seq<int> {
    dedup(flatten(pages.map_values(|p: Seq<char>| page_refs(p, bt))))
}

/// The tags of a bibliography as character vectors.
pub fn tag_chars(bib: &[BibEntry]) -> (r: Vec<Vec<char>>)
    ensures
        r@.map_values(|t: Vec<char>| t@) == bib_tags(bib@),
{
    let mut r: Vec<Vec<char>> = Vec::new();
    let mut i: usize = 0;
    while i < bib.len()
        invariant
            i <= bib.len(),
            r@.map_values(|t: Vec<char>| t@) == bib_tags(bib@.take(i as int)),
        decreases bib.len() - i,
    {
        let t = chars_of(bib[i].tag.as_str());
        let ghost before = r@;
        r.push(t);
        assert(bib_tags(bib@.take(i + 1)) =~= bib_tags(bib@.take(i as int)).push(bib@[i as int].tag@));
        assert(r@.map_values(|t: Vec<char>| t@) =~= before.map_values(|t: Vec<char>| t@).push(t@));
        i = i + 1;
    }
    assert(bib@.take(bib.len() as int) =~= bib@);
    r
}

/// Whether `v[a..b]` equals `t`.
pub fn range_eq(v: &Vec<char>, a: usize, b: usize, t: &Vec<char>) -> (r: bool)
    requires
        a <= b <= v.len(),
    ensures
        r == (v@.subrange(a as int, b as int) == t@),
{
    if b - a != t.len() {
        return false;
    }
    let mut k: usize = 0;
    while k < t.len()
        invariant
            k <= t.len(),
            a + t.len() == b <= v.len(),
            forall|j: int| 0 <= j < k ==> v@[a + j] == t@[j],
        decreases t.len() - k,
    {
        if v[a + k] != t[k] {
            assert(v@.subrange(a as int, b as int)[k as int] != t@[k as int]);
            return false;
        }
        k = k + 1;
    }
    assert(v@.subrange(a as int, b as int) =~= t@);
    true
}

/// The first position of `ts` holding `v[a..b]`.
pub fn find_tag_exec(ts: &Vec<Vec<char>>, v: &Vec<char>, a: usize, b: usize) -> (r: Option<usize>)
    requires
        a <= b <= v.len(),
    ensures
        match r {
            None => find_tag(
                ts@.map_values(|t: Vec<char>| t@),
                v@.subrange(a as int, b as int),
                0,
            ) is None,
            Some(k) => find_tag(
                ts@.map_values(|t: Vec<char>| t@),
                v@.subrange(a as int, b as int),
                0,
            ) == Some(k as int),
        },
{
    let ghost tv = ts@.map_values(|t: Vec<char>| t@);
    let ghost key = v@.subrange(a as int, b as int);
    let mut k: usize = 0;
    while k < ts.len()
        invariant
            k <= ts.len(),
            tv == ts@.map_values(|t: Vec<char>| t@),
            key == v@.subrange(a as int, b as int),
            a <= b <= v.len(),
            find_tag(tv, key, 0) == find_tag(tv, key, k as int),
        decreases ts.len() - k,
    {
        if range_eq(v, a, b, &ts[k]) {
            return Some(k);
        }
        k = k + 1;
    }
    None
}

/// The bibliography positions that the text `v` cites, each once, in order of
/// first citation.
pub fn page_refs_exec(v: &Vec<char>, bt: &Vec<Vec<char>>) -> (r: Vec<usize>)
    ensures
        r@.map_values(|k: usize| k as int) == page_refs(v@, bt@.map_values(|t: Vec<char>| t@)),
        forall|j: int| 0 <= j < r.len() ==> r[j] < bt.len(),
{
    let ghost btv = bt@.map_values(|t: Vec<char>| t@);
    let cs = cites(v);
    let ghost csv = cs@.map_values(|c: (usize, usize, usize)| (c.0 as int, c.1 as int, c.2 as int));
    let ghost tags = cited_tags(v@);
    let mut r: Vec<usize> = Vec::new();
    let mut i: usize = 0;
    while i < cs.len()
        invariant
            i <= cs.len(),
            btv == bt@.map_values(|t: Vec<char>| t@),
            csv == cs@.map_values(
                |c: (usize, usize, usize)| (c.0 as int, c.1 as int, c.2 as int),
            ),
            csv == cites_from(v@, 0),
            tags == cited_tags(v@),
            forall|k: int| 0 <= k < cs.len() ==> (#[trigger] cs[k]).0 <= cs[k].1 <= cs[k].2 <= v.len(),
            r@.map_values(|k: usize| k as int) == dedup(resolve_all(tags.take(i as int), btv)),
            forall|j: int| 0 <= j < r.len() ==> r[j] < bt.len(),
        decreases cs.len() - i,
    {
        let (a, b, _e) = cs[i];
        let ghost t = v@.subrange(a as int, b as int);
        assert(tags[i as int] == t);
        assert(tags.take(i + 1).drop_last() =~= tags.take(i as int));
        assert(tags.take(i + 1).last() == t);
        match find_tag_exec(bt, v, a, b) {
            Some(k) => {
                proof {
                    lemma_find_tag(btv, t, 0);
                }
                let ghost rv = r@.map_values(|k: usize| k as int);
                let mut seen = false;
                let mut j: usize = 0;
                while j < r.len()
                    invariant
                        j <= r.len(),
                        rv == r@.map_values(|k: usize| k as int),
                        seen <==> exists|m: int| 0 <= m < j && r[m] == k,
                    decreases r.len() - j,
                {
                    if r[j] == k {
                        seen = true;
                    }
                    j = j + 1;
                }
                assert(seen <==> rv.contains(k as int)) by {
                    if rv.contains(k as int) {
                        let m = choose|m: int| 0 <= m < rv.len() && rv[m] == k as int;
                        assert(r[m] == k);
                    }
                    if seen {
                        let m = choose|m: int| 0 <= m < r.len() && r[m] == k;
                        assert(rv[m] == k as int);
                    }
                }
                let ghost xs = resolve_all(tags.take(i as int), btv);
                assert(resolve_all(tags.take(i + 1), btv) == xs.push(k as int));
                assert(xs.push(k as int).drop_last() =~= xs);
                if !seen {
                    r.push(k);
                    assert(r@.map_values(|k: usize| k as int) =~= rv.push(k as int));
                }
            },
            None => {
                assert(resolve_all(tags.take(i + 1), btv) == resolve_all(tags.take(i as int), btv));
            },
        }
        i = i + 1;
    }
    assert(tags.take(cs.len() as int) =~= tags);
    r
}

/// The entries that a page cites, each once, in order of first citation.
pub open spec fn refs_of(s: Seq<char>, bib: Seq<BibEntry>) -> Seq<BibEntry> {
    page_refs(s, bib_tags(bib)).map_values(|k: int| bib[k])
}

/// The tags of the entries cited in the pages, each once, in order of first
/// citation.
pub open spec fn index_tags(pages: Seq<Seq<char>>, bib: Seq<BibEntry>) -> Seq<Seq<char>> {
    global_order(pages, bib_tags(bib)).map_values(|k: int| bib_tags(bib)[k])
}

/// The document-wide numbering of cited entries: the tag at position `k`
/// has number `k + 1`.
pub struct BibIndex {
    tags: Vec<Vec<char>>,
}

impl View for BibIndex {
    type V = Seq<Seq<char>>;

    closed spec fn view(&self) -> Seq<Seq<char>> {
        self.tags@.map_values(|t: Vec<char>| t@)
    }
}

/// The number of `t` in an index whose tags are `ts`.
pub open spec fn number_in(ts: Seq<Seq<char>>, t: Seq<char>) -> Option<int> {
    match find_tag(ts, t, 0) {
        Some(k) => Some(k + 1),
        None => None,
    }
}

impl BibIndex {
    /// Numbers the entries at the positions `order` of a bibliography whose tags
    /// are `bt`.
    pub fn from_positions(order: &Vec<usize>, bt: &Vec<Vec<char>>) -> (r: BibIndex)
        requires
            forall|j: int| 0 <= j < order.len() ==> order[j] < bt.len(),
            forall|a: int, b: int|
                0 <= a < b < order.len() ==> bt@[order[a] as int]@ != bt@[order[b] as int]@,
        ensures
            r@ == order@.map_values(|k: usize| k as int).map_values(
                |k: int| bt@.map_values(|t: Vec<char>| t@)[k],
            ),
    {
        let ghost btv = bt@.map_values(|t: Vec<char>| t@);
        let ghost want = order@.map_values(|k: usize| k as int).map_values(|k: int| btv[k]);
        let mut tags: Vec<Vec<char>> = Vec::new();
        let mut i: usize = 0;
        while i < order.len()
            invariant
                i <= order.len(),
                forall|j: int| 0 <= j < order.len() ==> order[j] < bt.len(),
                btv == bt@.map_values(|t: Vec<char>| t@),
                want == order@.map_values(|k: usize| k as int).map_values(|k: int| btv[k]),
                tags@.map_values(|t: Vec<char>| t@) == want.take(i as int),
            decreases order.len() - i,
        {
            let t = copy_chars(&bt[order[i]]);
            let ghost before = tags@;
            tags.push(t);
            assert(want.take(i + 1) =~= want.take(i as int).push(want[i as int]));
            assert(tags@.map_values(|t: Vec<char>| t@) =~= before.map_values(|t: Vec<char>| t@).push(t@));
            i = i + 1;
        }
        assert(want.take(order.len() as int) =~= want);
        assert forall|a: int, b: int| 0 <= a < b < tags@.len() implies tags@[a]@ != tags@[b]@ by {
            assert(tags@.map_values(|t: Vec<char>| t@)[a] == tags@[a]@);
            assert(tags@.map_values(|t: Vec<char>| t@)[b] == tags@[b]@);
            assert(want[a] == btv[order[a] as int]);
            assert(want[b] == btv[order[b] as int]);
        }
        BibIndex { tags }
    }

    /// No tag is numbered twice.
    #[verifier::type_invariant]
    spec fn tags_distinct(&self) -> bool {
        forall|a: int, b: int| 0 <= a < b < self.tags@.len() ==> self.tags@[a]@ != self.tags@[b]@
    }

    /// How many entries are numbered; no two of them have the same tag.
    pub fn len(&self) -> (r: usize)
        ensures
            r == self@.len(),
            forall|a: int, b: int| 0 <= a < b < self@.len() ==> self@[a] != self@[b],
    {
        proof {
            use_type_invariant(self);
        }
        self.tags.len()
    }

    /// The tag numbered `i + 1`.
    pub fn tag(&self, i: usize) -> (r: String)
        requires
            i < self@.len(),
        ensures
            r@ == self@[i as int],
    {
        crate::text::string_of(&self.tags[i])
    }

    /// The position of the tag `v[a..b]`, whose number is one more.
    pub fn position(&self, v: &Vec<char>, a: usize, b: usize) -> (r: Option<usize>)
        requires
            a <= b <= v.len(),
        ensures
            match r {
                None => find_tag(self@, v@.subrange(a as int, b as int), 0) is None,
                Some(k) => find_tag(self@, v@.subrange(a as int, b as int), 0) == Some(k as int)
                    && k < self@.len() && k < usize::MAX,
            },
    {
        let r = find_tag_exec(&self.tags, v, a, b);
        proof {
            lemma_find_tag(self@, v@.subrange(a as int, b as int), 0);
        }
        assert(self@.len() == self.tags.len());
        r
    }

    /// The first position of `ts` holding the tag numbered `g + 1`.
    pub fn find_among(&self, g: usize, ts: &Vec<Vec<char>>) -> (r: Option<usize>)
        requires
            g < self@.len(),
        ensures
            match r {
                None => find_tag(ts@.map_values(|t: Vec<char>| t@), self@[g as int], 0) is None,
                Some(k) => find_tag(ts@.map_values(|t: Vec<char>| t@), self@[g as int], 0) == Some(
                    k as int,
                ) && k < ts.len(),
            },
    {
        let t = &self.tags[g];
        assert(t@.subrange(0, t@.len() as int) =~= t@);
        let r = find_tag_exec(ts, t, 0, t.len());
        proof {
            lemma_find_tag(ts@.map_values(|t: Vec<char>| t@), self@[g as int], 0);
        }
        r
    }

    /// The number of `tag`, if it is numbered.
    pub fn number_of(&self, tag: &str) -> (r: Option<usize>)
        ensures
            match r {
                None => number_in(self@, tag@) is None,
                Some(n) => number_in(self@, tag@) == Some(n as int),
            },
    {
        let v = chars_of(tag);
        assert(v@.subrange(0, v@.len() as int) =~= v@);
        match self.position(&v, 0, v.len()) {
            None => None,
            Some(k) => {
                assert(self@.len() == self.tags.len());
                Some(k + 1)
            },
        }
    }
}

/// One more element, seen before or not.
pub proof fn lemma_dedup_push(xs: Seq<int>, x: int)
    ensures
        dedup(xs.push(x)) == if dedup(xs).contains(x) {
            dedup(xs)
        } else {
            dedup(xs).push(x)
        },
{
    assert(xs.push(x).drop_last() =~= xs);
}

/// Appends `k` to `order` unless it is there already.
pub fn push_new(order: &mut Vec<usize>, k: usize)
    ensures
        final(order)@.map_values(|k: usize| k as int) == if old(order)@.map_values(
            |k: usize| k as int,
        ).contains(k as int) {
            old(order)@.map_values(|k: usize| k as int)
        } else {
            old(order)@.map_values(|k: usize| k as int).push(k as int)
        },
        final(order)@ == old(order)@ || final(order)@ == old(order)@.push(k),
{
    let ghost rv = order@.map_values(|k: usize| k as int);
    let mut seen = false;
    let mut j: usize = 0;
    while j < order.len()
        invariant
            j <= order.len(),
            rv == order@.map_values(|k: usize| k as int),
            seen <==> exists|m: int| 0 <= m < j && order[m] == k,
        decreases order.len() - j,
    {
        if order[j] == k {
            seen = true;
        }
        j = j + 1;
    }
    assert(seen <==> rv.contains(k as int)) by {
        if rv.contains(k as int) {
            let m = choose|m: int| 0 <= m < rv.len() && rv[m] == k as int;
            assert(order[m] == k);
        }
        if seen {
            let m = choose|m: int| 0 <= m < order.len() && order[m] == k;
            assert(rv[m] == k as int);
        }
    }
    if !seen {
        order.push(k);
        assert(order@.map_values(|k: usize| k as int) =~= rv.push(k as int));
    }
}

/// What `find_tag` finds holds the tag, within bounds.
pub proof fn lemma_find_tag(ts: Seq<Seq<char>>, t: Seq<char>, i: int)
    ensures
        find_tag(ts, t, i) matches Some(k) ==> i <= k < ts.len() && ts[k] == t && forall|j: int|
            i <= j < k ==> ts[j] != t,
    decreases ts.len() - i,
{
    if !(i < 0 || i >= ts.len()) && ts[i] != t {
        lemma_find_tag(ts, t, i + 1);
    }
}

/// `k` is the first position of `bt` that holds its tag.
pub open spec fn is_first(bt: Seq<Seq<char>>, k: int) -> bool {
    0 <= k < bt.len() && forall|j: int| 0 <= j < k ==> bt[j] != bt[k]
}

/// No element of `xs` occurs twice.
pub open spec fn distinct(xs: Seq<int>) -> bool {
    forall|i: int, j: int| 0 <= i < j < xs.len() ==> xs[i] != xs[j]
}

proof fn lemma_resolve_first(tags: Seq<Seq<char>>, bt: Seq<Seq<char>>)
    ensures
        forall|m: int| 0 <= m < resolve_all(tags, bt).len() ==> is_first(bt, #[trigger] resolve_all(tags, bt)[m]),
    decreases tags.len(),
{
    if tags.len() > 0 {
        lemma_resolve_first(tags.drop_last(), bt);
        lemma_find_tag(bt, tags.last(), 0);
        let r = resolve_all(tags.drop_last(), bt);
        assert forall|m: int| 0 <= m < resolve_all(tags, bt).len() implies is_first(bt, #[trigger] resolve_all(tags, bt)[m]) by {
            if m < r.len() {
                assert(resolve_all(tags, bt)[m] == r[m]);
            }
        }
    }
}

proof fn lemma_dedup(xs: Seq<int>)
    ensures
        distinct(dedup(xs)),
        forall|m: int| 0 <= m < dedup(xs).len() ==> xs.contains(#[trigger] dedup(xs)[m]),
    decreases xs.len(),
{
    if xs.len() > 0 {
        let d = dedup(xs.drop_last());
        lemma_dedup(xs.drop_last());
        assert forall|m: int| 0 <= m < dedup(xs).len() implies xs.contains(#[trigger] dedup(xs)[m]) by {
            if m < d.len() {
                let w = choose|w: int| 0 <= w < xs.drop_last().len() && xs.drop_last()[w] == d[m];
                assert(xs[w] == d[m]);
            } else {
                assert(xs[xs.len() - 1] == dedup(xs)[m]);
            }
        }
    }
}

proof fn lemma_flatten_first(xss: Seq<Seq<int>>, bt: Seq<Seq<char>>)
    requires
        forall|i: int, m: int| 0 <= i < xss.len() && 0 <= m < xss[i].len() ==> is_first(bt, #[trigger] xss[i][m]),
    ensures
        forall|m: int| 0 <= m < flatten(xss).len() ==> is_first(bt, #[trigger] flatten(xss)[m]),
    decreases xss.len(),
{
    if xss.len() > 0 {
        lemma_flatten_first(xss.drop_last(), bt);
        let f = flatten(xss.drop_last());
        assert forall|m: int| 0 <= m < flatten(xss).len() implies is_first(bt, #[trigger] flatten(xss)[m]) by {
            if m < f.len() {
                assert(flatten(xss)[m] == f[m]);
            } else {
                assert(flatten(xss)[m] == xss[xss.len() - 1][m - f.len()]);
            }
        }
    }
}

/// Every position in the document-wide order is the first holding its tag.
pub proof fn lemma_order_first(pages: Seq<Seq<char>>, bt: Seq<Seq<char>>)
    ensures
        distinct(global_order(pages, bt)),
        forall|m: int| 0 <= m < global_order(pages, bt).len() ==> is_first(bt, #[trigger] global_order(pages, bt)[m]),
{
    let prs = pages.map_values(|p: Seq<char>| page_refs(p, bt));
    assert forall|i: int, m: int| 0 <= i < prs.len() && 0 <= m < prs[i].len() implies is_first(
        bt,
        #[trigger] prs[i][m],
    ) by {
        let tags = cited_tags(pages[i]);
        lemma_resolve_first(tags, bt);
        lemma_dedup(resolve_all(tags, bt));
        let w = choose|w: int| 0 <= w < resolve_all(tags, bt).len() && resolve_all(tags, bt)[w] == prs[i][m];
    }
    lemma_flatten_first(prs, bt);
    lemma_dedup(flatten(prs));
    let order = global_order(pages, bt);
    assert forall|m: int| 0 <= m < order.len() implies is_first(bt, #[trigger] order[m]) by {
        let w = choose|w: int| 0 <= w < flatten(prs).len() && flatten(prs)[w] == order[m];
    }
}

/// The index numbers each tag at most once: the tags it holds are pairwise
/// different, so a tag and its number determine each other.
pub proof fn lemma_index_tags_distinct(pages: Seq<Seq<char>>, bib: Seq<BibEntry>)
    ensures
        forall|i: int, j: int|
            0 <= i < j < index_tags(pages, bib).len() ==> index_tags(pages, bib)[i] != index_tags(
                pages,
                bib,
            )[j],
{
    let bt = bib_tags(bib);
    lemma_order_first(pages, bt);
    let order = global_order(pages, bt);
    assert forall|i: int, j: int| 0 <= i < j < index_tags(pages, bib).len() implies index_tags(pages, bib)[i] != index_tags(pages, bib)[j] by {
        assert(is_first(bt, order[i]));
        assert(is_first(bt, order[j]));
        assert(order[i] != order[j]);
    }
}

/// A tag that no entry of the bibliography holds has no number.
pub proof fn lemma_unknown_tag_unnumbered(pages: Seq<Seq<char>>, bib: Seq<BibEntry>, t: Seq<char>)
    requires
        !bib_tags(bib).contains(t),
    ensures
        number_in(index_tags(pages, bib), t) is None,
{
    let bt = bib_tags(bib);
    let idx = index_tags(pages, bib);
    lemma_order_first(pages, bt);
    lemma_find_tag(idx, t, 0);
    if let Some(k) = find_tag(idx, t, 0) {
        let o = global_order(pages, bt)[k];
        assert(is_first(bt, o));
        assert(bt[o] == t);
    }
}

proof fn lemma_dedup_keeps(xs: Seq<int>, x: int)
    requires
        xs.contains(x),
    ensures
        dedup(xs).contains(x),
    decreases xs.len(),
{
    let w = choose|w: int| 0 <= w < xs.len() && xs[w] == x;
    let d = dedup(xs.drop_last());
    if w < xs.len() - 1 {
        assert(xs.drop_last()[w] == x);
        lemma_dedup_keeps(xs.drop_last(), x);
        if !d.contains(xs.last()) {
            let v = choose|v: int| 0 <= v < d.len() && d[v] == x;
            assert(d.push(xs.last())[v] == x);
        }
    } else if !d.contains(xs.last()) {
        assert(d.push(xs.last())[d.len() as int] == x);
    }
}

proof fn lemma_flatten_keeps(xss: Seq<Seq<int>>, j: int, x: int)
    requires
        0 <= j < xss.len(),
        xss[j].contains(x),
    ensures
        flatten(xss).contains(x),
    decreases xss.len(),
{
    let f = flatten(xss.drop_last());
    if j < xss.len() - 1 {
        assert(xss.drop_last()[j] == xss[j]);
        lemma_flatten_keeps(xss.drop_last(), j, x);
        let v = choose|v: int| 0 <= v < f.len() && f[v] == x;
        assert(flatten(xss)[v] == x);
    } else {
        let v = choose|v: int| 0 <= v < xss[j].len() && xss[j][v] == x;
        assert(flatten(xss)[f.len() + v] == x);
    }
}

/// The entries that page `j` cites differ in their tags, and the index built
/// from the pages numbers each of them.
pub proof fn lemma_page_refs_in_index(pages: Seq<Seq<char>>, bib: Seq<BibEntry>, j: int)
    requires
        0 <= j < pages.len(),
    ensures
        forall|a: int, b: int|
            0 <= a < b < refs_of(pages[j], bib).len() ==> refs_of(pages[j], bib)[a].tag@
                != refs_of(pages[j], bib)[b].tag@,
        forall|k: int|
            0 <= k < refs_of(pages[j], bib).len() ==> index_tags(pages, bib).contains(
                #[trigger] refs_of(pages[j], bib)[k].tag@,
            ),
{
    let bt = bib_tags(bib);
    let tags = cited_tags(pages[j]);
    let pr = page_refs(pages[j], bt);
    let refs = refs_of(pages[j], bib);
    lemma_resolve_first(tags, bt);
    lemma_dedup(resolve_all(tags, bt));
    assert forall|a: int| 0 <= a < pr.len() implies is_first(bt, #[trigger] pr[a]) by {
        let w = choose|w: int| 0 <= w < resolve_all(tags, bt).len() && resolve_all(tags, bt)[w] == pr[a];
    }
    assert forall|a: int, b: int| 0 <= a < b < refs.len() implies refs[a].tag@ != refs[b].tag@ by {
        assert(is_first(bt, pr[a]) && is_first(bt, pr[b]));
        assert(refs[a].tag@ == bt[pr[a]]);
        assert(refs[b].tag@ == bt[pr[b]]);
    }
    let prs = pages.map_values(|p: Seq<char>| page_refs(p, bt));
    let order = global_order(pages, bt);
    assert forall|k: int| 0 <= k < refs.len() implies index_tags(pages, bib).contains(
        #[trigger] refs[k].tag@,
    ) by {
        assert(prs[j][k] == pr[k]);
        lemma_flatten_keeps(prs, j, pr[k]);
        lemma_dedup_keeps(flatten(prs), pr[k]);
        let v = choose|v: int| 0 <= v < order.len() && order[v] == pr[k];
        assert(index_tags(pages, bib)[v] == bt[pr[k]]);
    }
}

} // verus!
