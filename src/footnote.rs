//! The footnote block of a page: `<div class="footnote">`, one line per cited
//! entry, `</div>`.
use vstd::prelude::*;

use crate::bib::{bib_tags, entry_text, find_tag, lemma_find_tag, push_str, BibEntry, BibIndex};
use crate::contents::join;
use crate::scan::{
    find_from, find_from_exec, find_in_line, find_in_line_exec, line_stop, line_stop_exec,
    occurs_at, occurs_at_exec,
};
use crate::text::{chars_of, decimal, push_char, push_decimal, push_range};

verus! {

/// `<div class="footnote">`
pub open spec fn div_open() -> Seq<char> {
    "<div class=\"footnote\">"@
}

/// `</div>`
pub open spec fn div_close() -> Seq<char> {
    "</div>"@
}

/// `<span id="`
pub open spec fn span_open() -> Seq<char> {
    "<span id=\""@
}

/// `">`
pub open spec fn quote_gt() -> Seq<char> {
    "\">"@
}

/// `</span>`
pub open spec fn span_close() -> Seq<char> {
    "</span>"@
}

/// The end of the footnote entry that starts at `p`, if one does: `<span id="`,
/// then on the same line `">` and after it `</span>`; the entry runs to the end
/// of its line.
pub open spec fn span_at(s: Seq<char>, p: int) -> Option<int> {
    if occurs_at(s, span_open(), p) {
        match find_in_line(s, quote_gt(), p + span_open().len()) {
            Some(i) => match find_in_line(s, span_close(), i + quote_gt().len()) {
                Some(_) => Some(line_stop(s, p)),
                None => None,
            },
            None => None,
        }
    } else {
        None
    }
}

/// Whether a footnote entry starts on the line of `i`, at `i` or after it.
pub open spec fn span_in_line(s: Seq<char>, i: int) -> bool
    decreases s.len() - i,
{
    if i < 0 || i >= s.len() || s[i] == '\n' {
        false
    } else {
        span_at(s, i) is Some || span_in_line(s, i + 1)
    }
}

/// The start of the line after the one that holds `i`, or `s.len()`.
pub open spec fn next_line(s: Seq<char>, i: int) -> int {
    if line_stop(s, i) < s.len() {
        line_stop(s, i) + 1
    } else {
        s.len() as int
    }
}

/// `s` from the line start `i` on, every line that holds a footnote entry
/// removed together with its line break.
pub open spec fn purge_from(s: Seq<char>, i: int) -> Seq<char>
    decreases s.len() - i,
{
    if i < 0 || i >= s.len() {
        seq![]
    } else {
        let n = next_line(s, i);
        if i < n <= s.len() {
            (if span_in_line(s, i) {
                seq![]
            } else {
                s.subrange(i, n)
            }) + purge_from(s, n)
        } else {
            seq![]
        }
    }
}

/// `s` with every line that holds a footnote entry removed.
pub open spec fn purge(s: Seq<char>) -> Seq<char> {
    purge_from(s, 0)
}

/// `<span id="tag:page">[n]</span> entry`, the footnote line of an entry.
pub open spec fn span_line(e: BibEntry, page: nat, n: nat) -> Seq<char> {
    span_open() + e.tag@ + seq![':'] + decimal(page) + quote_gt() + seq!['['] + decimal(n)
        + seq![']'] + span_close() + seq![' '] + entry_text(e)
}

/// The footnote lines for `refs`, by ascending number: the tags of `idx` in
/// order, each that some entry of `refs` holds giving that entry's line.
pub open spec fn block_lines(refs: Seq<BibEntry>, idx: Seq<Seq<char>>, page: nat) -> Seq<
    Seq<char>,
>
    decreases idx.len(),
{
    if idx.len() == 0 {
        seq![]
    } else {
        let prev = block_lines(refs, idx.drop_last(), page);
        match find_tag(bib_tags(refs), idx.last(), 0) {
            Some(k) => prev.push(span_line(refs[k], page, idx.len() as nat)),
            None => prev,
        }
    }
}

/// The footnote lines joined by `'\n'`, then two line breaks.
pub open spec fn bibliography(refs: Seq<BibEntry>, idx: Seq<Seq<char>>, page: nat) -> Seq<char> {
    join(block_lines(refs, idx, page), seq!['\n']) + seq!['\n', '\n']
}

/// A new footnote container holding `block`, as it is appended to a page.
pub open spec fn new_container(block: Seq<char>) -> Seq<char> {
    "\n\n<div class=\"footnote\">\n\n"@ + block + "\n\n</div>\n"@
}

/// `c` with `block` put into its footnote container: where `c` has one, the
/// lines inside that hold old entries are removed and `block` follows what is
/// left; where it has none, a container holding `block` is appended.
pub open spec fn with_footnote(c: Seq<char>, block: Seq<char>) -> Seq<char> {
    match find_from(c, div_open(), 0) {
        Some(o) => match find_from(c, div_close(), o + div_open().len()) {
            Some(k) => c.subrange(0, o + div_open().len()) + purge(
                c.subrange(o + div_open().len(), k),
            ) + block + c.subrange(k, c.len() as int),
            None => c + new_container(block),
        },
        None => c + new_container(block),
    }
}

struct SpanPatterns {
    open: Vec<char>,
    quote: Vec<char>,
    close: Vec<char>,
}

impl SpanPatterns {
    spec fn valid(&self) -> bool {
        &&& self.open@ == span_open()
        &&& self.quote@ == quote_gt()
        &&& self.close@ == span_close()
    }

    fn new() -> (r: SpanPatterns)
        ensures
            r.valid(),
    {
        SpanPatterns {
            open: chars_of("<span id=\""),
            quote: chars_of("\">"),
            close: chars_of("</span>"),
        }
    }
}

fn span_at_exec(v: &Vec<char>, pats: &SpanPatterns, p: usize) -> (r: Option<usize>)
    requires
        pats.valid(),
    ensures
        match r {
            None => span_at(v@, p as int) is None,
            Some(e) => span_at(v@, p as int) == Some(e as int) && p < e <= v.len(),
        },
{
    proof {
        reveal_strlit("<span id=\"");
        reveal_strlit("\">");
        reveal_strlit("</span>");
    }
    if !occurs_at_exec(v, &pats.open, p) {
        return None;
    }
    assert(pats.open@ == span_open() && pats.quote@ == quote_gt());
    assert(span_open().len() == 10);
    assert(quote_gt().len() == 2);
    assert(p + 10 <= v.len());
    assert(v@.subrange(p as int, p + 10)[0] == '<');
    match find_in_line_exec(v, &pats.quote, p + 10) {
        None => None,
        Some(i) => {
            proof {
                crate::scan::lemma_find_in_line(v@, quote_gt(), p + 10);
                assert(i + 2 <= v.len());
            }
            match find_in_line_exec(v, &pats.close, i + 2) {
                None => None,
                Some(_) => Some(line_stop_exec(v, p + 1)),
            }
        },
    }
}

fn span_in_line_exec(v: &Vec<char>, pats: &SpanPatterns, i: usize) -> (r: bool)
    requires
        pats.valid(),
    ensures
        r == span_in_line(v@, i as int),
{
    let mut p = i;
    while p < v.len() && v[p] != '\n'
        invariant
            pats.valid(),
            i <= p,
            span_in_line(v@, i as int) == span_in_line(v@, p as int),
        decreases v.len() - p,
    {
        if span_at_exec(v, pats, p).is_some() {
            return true;
        }
        p = p + 1;
    }
    false
}

/// `v` with every line that holds a footnote entry removed.
pub fn purge_exec(v: &Vec<char>) -> (r: String)
    ensures
        r@ == purge(v@),
{
    let pats = SpanPatterns::new();
    let mut out = String::new();
    let mut i: usize = 0;
    while i < v.len()
        invariant
            pats.valid(),
            i <= v.len(),
            purge(v@) == out@ + purge_from(v@, i as int),
        decreases v.len() - i,
    {
        let e = line_stop_exec(v, i);
        let n = if e < v.len() {
            e + 1
        } else {
            v.len()
        };
        proof {
            lemma_stop_bounds(v@, i as int);
        }
        let ghost prev = out@;
        if !span_in_line_exec(v, &pats, i) {
            push_range(&mut out, v, i, n);
        }
        assert(prev + purge_from(v@, i as int) =~= out@ + purge_from(v@, n as int));
        i = n;
    }
    assert(out@ =~= out@ + purge_from(v@, i as int));
    out
}

/// The tags of the entries referred to, as character vectors.
fn ref_tag_chars(refs: &[&BibEntry]) -> (r: Vec<Vec<char>>)
    ensures
        r@.map_values(|t: Vec<char>| t@) == bib_tags(refs@.map_values(|e: &BibEntry| *e)),
{
    let ghost rv = refs@.map_values(|e: &BibEntry| *e);
    let mut r: Vec<Vec<char>> = Vec::new();
    let mut i: usize = 0;
    while i < refs.len()
        invariant
            i <= refs.len(),
            rv == refs@.map_values(|e: &BibEntry| *e),
            r@.map_values(|t: Vec<char>| t@) == bib_tags(rv.take(i as int)),
        decreases refs.len() - i,
    {
        let t = chars_of(refs[i].tag.as_str());
        let ghost before = r@;
        r.push(t);
        assert(bib_tags(rv.take(i + 1)) =~= bib_tags(rv.take(i as int)).push(rv[i as int].tag@));
        assert(r@.map_values(|t: Vec<char>| t@) =~= before.map_values(|t: Vec<char>| t@).push(t@));
        i = i + 1;
    }
    assert(rv.take(refs.len() as int) =~= rv);
    r
}

/// Appends the footnote line of `e` to `s`.
fn push_span_line(s: &mut String, e: &BibEntry, page: usize, n: usize)
    ensures
        final(s)@ == old(s)@ + span_line(*e, page as nat, n as nat),
{
    push_str(s, "<span id=\"");
    push_str(s, e.tag.as_str());
    push_char(s, ':');
    push_decimal(s, page);
    push_str(s, "\">");
    push_char(s, '[');
    push_decimal(s, n);
    push_char(s, ']');
    push_str(s, "</span>");
    push_char(s, ' ');
    let f = e.format();
    push_str(s, f.as_str());
    assert(s@ =~= old(s)@ + span_line(*e, page as nat, n as nat));
}

/// The footnote lines of the entries referred to, by ascending number.
pub fn bibliography_exec(page: usize, refs: &[&BibEntry], idx: &BibIndex) -> (r: String)
    ensures
        r@ == bibliography(refs@.map_values(|e: &BibEntry| *e), idx@, page as nat),
{
    let ghost rv = refs@.map_values(|e: &BibEntry| *e);
    let ts = ref_tag_chars(refs);
    assert(ts@.map_values(|t: Vec<char>| t@).len() == ts.len());
    assert(bib_tags(rv).len() == refs.len());
    let mut out = String::new();
    let mut any = false;
    let mut g: usize = 0;
    while g < idx.len()
        invariant
            g <= idx@.len(),
            rv == refs@.map_values(|e: &BibEntry| *e),
            ts@.map_values(|t: Vec<char>| t@) == bib_tags(rv),
            ts.len() == refs.len(),
            out@ == join(block_lines(rv, idx@.take(g as int), page as nat), seq!['\n']),
            any <==> block_lines(rv, idx@.take(g as int), page as nat).len() > 0,
        decreases idx@.len() - g,
    {
        let ghost prev_lines = block_lines(rv, idx@.take(g as int), page as nat);
        assert(idx@.take(g + 1).drop_last() =~= idx@.take(g as int));
        match idx.find_among(g, &ts) {
            Some(k) => {
                let ghost line = span_line(rv[k as int], page as nat, (g + 1) as nat);
                assert(block_lines(rv, idx@.take(g + 1), page as nat) == prev_lines.push(line));
                assert(prev_lines.push(line).drop_last() =~= prev_lines);
                if any {
                    push_char(&mut out, '\n');
                }
                push_span_line(&mut out, refs[k], page, g + 1);
                assert(out@ =~= join(prev_lines.push(line), seq!['\n']));
                any = true;
            },
            None => {
                assert(block_lines(rv, idx@.take(g + 1), page as nat) == prev_lines);
            },
        }
        g = g + 1;
    }
    assert(idx@.take(idx@.len() as int) =~= idx@);
    push_char(&mut out, '\n');
    push_char(&mut out, '\n');
    out
}

/// `c` with `block` put into its footnote container (see `with_footnote`).
pub fn with_footnote_exec(c: &Vec<char>, block: &Vec<char>) -> (r: String)
    ensures
        r@ == with_footnote(c@, block@),
{
    proof {
        reveal_strlit("<div class=\"footnote\">");
        reveal_strlit("</div>");
    }
    let open = chars_of("<div class=\"footnote\">");
    let close = chars_of("</div>");
    let mut out = String::new();
    if let Some(o) = find_from_exec(c, &open, 0) {
        proof {
            crate::scan::lemma_find_from(c@, div_open(), 0);
            assert(div_open().len() == 22);
            assert(o + 22 <= c.len());
        }
        if let Some(k) = find_from_exec(c, &close, o + 22) {
            proof {
                crate::scan::lemma_find_from(c@, div_close(), o + 22);
            }
            push_range(&mut out, c, 0, o + 22);
            let inner = copy_range(c, o + 22, k);
            let purged = purge_exec(&inner);
            push_str(&mut out, purged.as_str());
            push_range(&mut out, block, 0, block.len());
            push_range(&mut out, c, k, c.len());
            assert(block@.subrange(0, block@.len() as int) =~= block@);
            return out;
        }
    }
    push_range(&mut out, c, 0, c.len());
    push_str(&mut out, "\n\n<div class=\"footnote\">\n\n");
    push_range(&mut out, block, 0, block.len());
    push_str(&mut out, "\n\n</div>\n");
    assert(c@.subrange(0, c@.len() as int) =~= c@);
    assert(block@.subrange(0, block@.len() as int) =~= block@);
    out
}

/// The characters `v[a..b]`.
fn copy_range(v: &Vec<char>, a: usize, b: usize) -> (r: Vec<char>)
    requires
        a <= b <= v.len(),
    ensures
        r@ == v@.subrange(a as int, b as int),
{
    let mut r: Vec<char> = Vec::new();
    let mut i = a;
    while i < b
        invariant
            a <= i <= b <= v.len(),
            r@ == v@.subrange(a as int, i as int),
        decreases b - i,
    {
        r.push(v[i]);
        assert(v@.subrange(a as int, i + 1) =~= v@.subrange(a as int, i as int).push(v@[i as int]));
        i = i + 1;
    }
    r
}

/// What the pattern holds: no line break, at least one character.
pub open spec fn single_line(pat: Seq<char>) -> bool {
    pat.len() > 0 && forall|j: int| 0 <= j < pat.len() ==> pat[j] != '\n'
}

proof fn lemma_patterns()
    ensures
        single_line(span_open()),
        single_line(quote_gt()),
        single_line(span_close()),
        span_open().len() == 10,
        span_open()[0] == '<',
        quote_gt().len() == 2,
{
    reveal_strlit("<span id=\"");
    reveal_strlit("\">");
    reveal_strlit("</span>");
}

proof fn lemma_shift_occurs(a: Seq<char>, v: Seq<char>, pat: Seq<char>, x: int)
    requires
        0 <= x,
    ensures
        occurs_at(a + v, pat, a.len() + x) == occurs_at(v, pat, x),
{
    if occurs_at(v, pat, x) {
        assert((a + v).subrange(a.len() + x, a.len() + x + pat.len()) =~= v.subrange(x, x + pat.len()));
    }
    if occurs_at(a + v, pat, a.len() + x) {
        assert((a + v).subrange(a.len() + x, a.len() + x + pat.len()) =~= v.subrange(x, x + pat.len()));
    }
}

proof fn lemma_shift_find(a: Seq<char>, v: Seq<char>, pat: Seq<char>, x: int)
    requires
        0 <= x,
    ensures
        find_in_line(a + v, pat, a.len() + x) == match find_in_line(v, pat, x) {
            Some(k) => Some(k + a.len()),
            None => None::<int>,
        },
    decreases v.len() - x,
{
    lemma_shift_occurs(a, v, pat, x);
    if x < v.len() && x + pat.len() <= v.len() && !occurs_at(v, pat, x) && v[x] != '\n' {
        lemma_shift_find(a, v, pat, x + 1);
    }
}

proof fn lemma_shift_stop(a: Seq<char>, v: Seq<char>, x: int)
    requires
        0 <= x,
    ensures
        line_stop(a + v, a.len() + x) == line_stop(v, x) + a.len(),
    decreases v.len() - x,
{
    if x < v.len() && v[x] != '\n' {
        lemma_shift_stop(a, v, x + 1);
    }
}

proof fn lemma_shift_span(a: Seq<char>, v: Seq<char>, x: int)
    requires
        0 <= x,
    ensures
        (span_at(a + v, a.len() + x) is None) == (span_at(v, x) is None),
{
    lemma_patterns();
    lemma_shift_occurs(a, v, span_open(), x);
    lemma_shift_find(a, v, quote_gt(), x + 10);
    if let Some(i) = find_in_line(v, quote_gt(), x + 10) {
        crate::scan::lemma_find_in_line(v, quote_gt(), x + 10);
        lemma_shift_find(a, v, span_close(), i + 2);
    }
}

proof fn lemma_stop_bounds(s: Seq<char>, i: int)
    requires
        0 <= i <= s.len(),
    ensures
        i <= line_stop(s, i) <= s.len(),
        line_stop(s, i) == s.len() || s[line_stop(s, i)] == '\n',
        forall|j: int| i <= j < line_stop(s, i) ==> s[j] != '\n',
    decreases s.len() - i,
{
    if i < s.len() && s[i] != '\n' {
        lemma_stop_bounds(s, i + 1);
    }
}

/// Two texts that agree up to `n`, where the first one's line ends, find the
/// same first occurrence of a one-line pattern.
proof fn lemma_agree_find(a: Seq<char>, b: Seq<char>, n: int, pat: Seq<char>, x: int)
    requires
        0 <= x <= n,
        n <= a.len(),
        n <= b.len(),
        a.take(n) == b.take(n),
        n == a.len() || a[n] == '\n',
        single_line(pat),
    ensures
        find_in_line(a, pat, x) matches Some(k) ==> find_in_line(b, pat, x) == Some(k) && k
            + pat.len() <= n,
    decreases a.len() - x,
{
    crate::scan::lemma_find_in_line(a, pat, x);
    if let Some(k) = find_in_line(a, pat, x) {
        if k + pat.len() > n {
            assert(n < a.len());
            if n < k {
                assert(a[n] != '\n');
            } else {
                assert(a.subrange(k, k + pat.len())[n - k] == a[n]);
                assert(pat[n - k] != '\n');
            }
        }
        assert(k + pat.len() <= n);
        if x == k {
            assert(b.subrange(k, k + pat.len()) =~= a.subrange(k, k + pat.len())) by {
                assert forall|j: int| 0 <= j < pat.len() implies #[trigger] b.subrange(k, k + pat.len())[j]
                    == a.subrange(k, k + pat.len())[j] by {
                    assert(a.take(n)[k + j] == b.take(n)[k + j]);
                    assert(a.take(n)[k + j] == a[k + j]);
                    assert(b.take(n)[k + j] == b[k + j]);
                }
            }
        } else {
            assert(x < k);
            assert(a.take(n)[x] == b.take(n)[x]);
            assert(a.take(n)[x] == a[x]);
            assert(b.take(n)[x] == b[x]);
            assert(b[x] != '\n');
            if occurs_at(b, pat, x) {
                assert(a.subrange(x, x + pat.len()) =~= b.subrange(x, x + pat.len())) by {
                    assert forall|j: int| 0 <= j < pat.len() implies #[trigger] a.subrange(x, x + pat.len())[j]
                        == b.subrange(x, x + pat.len())[j] by {
                        assert(a.take(n)[x + j] == b.take(n)[x + j]);
                        assert(a.take(n)[x + j] == a[x + j]);
                        assert(b.take(n)[x + j] == b[x + j]);
                    }
                }
            }
            assert(!occurs_at(b, pat, x));
            lemma_agree_find(a, b, n, pat, x + 1);
        }
    }
}

/// A footnote entry at the start of the first text is one of the second too.
proof fn lemma_agree_span(a: Seq<char>, b: Seq<char>, n: int)
    requires
        0 <= n <= a.len(),
        n <= b.len(),
        a.take(n) == b.take(n),
        n == a.len() || a[n] == '\n',
    ensures
        span_at(a, 0) is Some ==> span_at(b, 0) is Some,
{
    lemma_patterns();
    if span_at(a, 0) is Some {
        assert(a.subrange(0, 10) =~= b.subrange(0, 10)) by {
            if n < 10 {
                assert(a.subrange(0, 10)[n] == a[n]);
                assert(false);
            }
            assert forall|j: int| 0 <= j < 10 implies #[trigger] a.subrange(0, 10)[j] == b.subrange(0, 10)[j] by {
                assert(a.take(n)[j] == b.take(n)[j]);
            }
        }
        lemma_agree_find(a, b, n, quote_gt(), 10);
        let i = find_in_line(a, quote_gt(), 10)->Some_0;
        crate::scan::lemma_find_in_line(a, quote_gt(), 10);
        lemma_agree_find(a, b, n, span_close(), i + 2);
    }
}

/// An entry on the line of `i`, at or after `i`, is found by `span_in_line`.
proof fn lemma_span_in_line(s: Seq<char>, i: int, p: int)
    requires
        0 <= i <= p < line_stop(s, i),
        span_at(s, p) is Some,
    ensures
        span_in_line(s, i),
    decreases p - i,
{
    lemma_stop_bounds(s, i);
    if p > i {
        assert(line_stop(s, i) == line_stop(s, i + 1));
        lemma_span_in_line(s, i + 1, p);
    }
}

/// Nothing that the purge leaves is a footnote entry.
pub proof fn lemma_purge_from_clean(s: Seq<char>, i: int)
    requires
        0 <= i <= s.len(),
    ensures
        forall|q: int| 0 <= q ==> span_at(purge_from(s, i), q) is None,
    decreases s.len() - i,
{
    lemma_patterns();
    let t = purge_from(s, i);
    if i >= s.len() {
        assert forall|q: int| 0 <= q implies span_at(t, q) is None by {
            assert(t.len() == 0);
        }
    } else {
        lemma_stop_bounds(s, i);
        let e = line_stop(s, i);
        let n = next_line(s, i);
        let rest = purge_from(s, n);
        lemma_purge_from_clean(s, n);
        if span_in_line(s, i) {
            assert(t =~= rest);
        } else {
            let piece = s.subrange(i, n);
            assert(t == piece + rest);
            assert forall|q: int| 0 <= q implies span_at(t, q) is None by {
                if q >= piece.len() {
                    lemma_shift_span(piece, rest, q - piece.len());
                } else if span_at(t, q) is Some {
                    let p = i + q;
                    let tq = t.subrange(q, t.len() as int);
                    let sp = s.subrange(p, s.len() as int);
                    assert(t.take(q) + tq =~= t);
                    lemma_shift_span(t.take(q), tq, 0);
                    assert(s.take(p) + sp =~= s);
                    lemma_shift_span(s.take(p), sp, 0);
                    if p == e {
                        assert(t.subrange(q, q + 10)[0] == '<');
                        assert(t[q] == s[e]);
                        assert(false);
                    }
                    let m = e - p;
                    assert(tq.take(m) =~= sp.take(m)) by {
                        assert forall|j: int| 0 <= j < m implies #[trigger] tq.take(m)[j] == sp.take(m)[j] by {
                            assert(tq[j] == t[q + j]);
                            assert(t[q + j] == piece[q + j]);
                        }
                    }
                    if e < s.len() {
                        assert(tq[m] == piece[q + m]);
                    } else {
                        assert(rest.len() == 0);
                    }
                    lemma_agree_span(tq, sp, m);
                    lemma_span_in_line(s, i, p);
                }
            }
        }
    }
}

/// The purge removes every line that holds a footnote entry: what it leaves
/// holds none.
pub proof fn lemma_purge_clean(x: Seq<char>)
    ensures
        forall|q: int| 0 <= q ==> span_at(purge(x), q) is None,
{
    lemma_purge_from_clean(x, 0);
}

/// How many entries of `refs` hold a tag that `ts` holds.
pub open spec fn count_in(refs: Seq<BibEntry>, ts: Seq<Seq<char>>) -> nat
    decreases refs.len(),
{
    if refs.len() == 0 {
        0
    } else {
        count_in(refs.drop_last(), ts) + if ts.contains(refs.last().tag@) {
            1nat
        } else {
            0nat
        }
    }
}

/// How many entries of `refs` hold the tag `t`.
pub open spec fn count_eq(refs: Seq<BibEntry>, t: Seq<char>) -> nat
    decreases refs.len(),
{
    if refs.len() == 0 {
        0
    } else {
        count_eq(refs.drop_last(), t) + if refs.last().tag@ == t {
            1nat
        } else {
            0nat
        }
    }
}

proof fn lemma_count_push(refs: Seq<BibEntry>, ts: Seq<Seq<char>>, t: Seq<char>)
    requires
        !ts.contains(t),
    ensures
        count_in(refs, ts.push(t)) == count_in(refs, ts) + count_eq(refs, t),
    decreases refs.len(),
{
    if refs.len() > 0 {
        lemma_count_push(refs.drop_last(), ts, t);
        let u = refs.last().tag@;
        if ts.push(t).contains(u) && !ts.contains(u) {
            let w = choose|w: int| 0 <= w < ts.push(t).len() && ts.push(t)[w] == u;
            if w < ts.len() {
                assert(ts[w] == u);
            }
        }
        if ts.contains(u) {
            let w = choose|w: int| 0 <= w < ts.len() && ts[w] == u;
            assert(ts.push(t)[w] == u);
        }
        if u == t {
            assert(ts.push(t)[ts.len() as int] == u);
        }
    }
}

/// Where the tags of `refs` differ from each other, a tag is held by one entry
/// if `find_tag` finds it, by none otherwise.
proof fn lemma_count_eq(refs: Seq<BibEntry>, t: Seq<char>)
    requires
        forall|a: int, b: int| 0 <= a < b < refs.len() ==> refs[a].tag@ != refs[b].tag@,
    ensures
        count_eq(refs, t) == if find_tag(bib_tags(refs), t, 0) is Some {
            1nat
        } else {
            0nat
        },
    decreases refs.len(),
{
    lemma_find_tag(bib_tags(refs), t, 0);
    if refs.len() > 0 {
        let pre = refs.drop_last();
        lemma_count_eq(pre, t);
        lemma_find_tag(bib_tags(pre), t, 0);
        lemma_find_tag_absent(bib_tags(refs), t, 0);
        lemma_find_tag_absent(bib_tags(pre), t, 0);
        assert(bib_tags(pre) =~= bib_tags(refs).drop_last());
        if let Some(k) = find_tag(bib_tags(pre), t, 0) {
            assert(bib_tags(refs)[k] == t);
            assert(refs.last().tag@ != t) by {
                assert(refs[k].tag@ != refs[refs.len() - 1].tag@);
            }
        } else if refs.last().tag@ == t {
            assert(bib_tags(refs)[refs.len() - 1] == t);
        } else {
            assert forall|j: int| 0 <= j < bib_tags(refs).len() implies bib_tags(refs)[j] != t by {
                if j < pre.len() {
                    assert(bib_tags(pre)[j] == bib_tags(refs)[j]);
                }
            }
        }
    }
}

/// `find_tag` finds nothing exactly when no position holds the tag.
pub proof fn lemma_find_tag_absent(ts: Seq<Seq<char>>, t: Seq<char>, i: int)
    requires
        0 <= i,
    ensures
        find_tag(ts, t, i) is None <==> forall|j: int| i <= j < ts.len() ==> ts[j] != t,
    decreases ts.len() - i,
{
    if i < ts.len() && ts[i] != t {
        lemma_find_tag_absent(ts, t, i + 1);
    }
}

/// One footnote line for each entry of `refs` whose tag the index `idx` holds.
proof fn lemma_block_count(refs: Seq<BibEntry>, idx: Seq<Seq<char>>, page: nat)
    requires
        forall|a: int, b: int| 0 <= a < b < refs.len() ==> refs[a].tag@ != refs[b].tag@,
        forall|a: int, b: int| 0 <= a < b < idx.len() ==> idx[a] != idx[b],
    ensures
        block_lines(refs, idx, page).len() == count_in(refs, idx),
    decreases idx.len(),
{
    if idx.len() == 0 {
        lemma_count_zero(refs, idx);
    } else {
        let pre = idx.drop_last();
        lemma_block_count(refs, pre, page);
        assert(!pre.contains(idx.last())) by {
            if pre.contains(idx.last()) {
                let w = choose|w: int| 0 <= w < pre.len() && pre[w] == idx.last();
                assert(idx[w] != idx[idx.len() - 1]);
            }
        }
        lemma_count_push(refs, pre, idx.last());
        assert(pre.push(idx.last()) =~= idx);
        lemma_count_eq(refs, idx.last());
    }
}

proof fn lemma_count_zero(refs: Seq<BibEntry>, ts: Seq<Seq<char>>)
    requires
        ts.len() == 0,
    ensures
        count_in(refs, ts) == 0,
    decreases refs.len(),
{
    if refs.len() > 0 {
        lemma_count_zero(refs.drop_last(), ts);
    }
}

proof fn lemma_count_all(refs: Seq<BibEntry>, ts: Seq<Seq<char>>)
    requires
        forall|k: int| 0 <= k < refs.len() ==> ts.contains(#[trigger] refs[k].tag@),
    ensures
        count_in(refs, ts) == refs.len(),
    decreases refs.len(),
{
    if refs.len() > 0 {
        lemma_count_all(refs.drop_last(), ts);
        assert(ts.contains(refs[refs.len() - 1].tag@));
    }
}

/// Where the entries cited differ in their tags, and the index numbers each of
/// them once, the footnote block holds exactly one line per entry cited.
pub proof fn lemma_block_exact(refs: Seq<BibEntry>, idx: Seq<Seq<char>>, page: nat)
    requires
        forall|a: int, b: int| 0 <= a < b < refs.len() ==> refs[a].tag@ != refs[b].tag@,
        forall|a: int, b: int| 0 <= a < b < idx.len() ==> idx[a] != idx[b],
        forall|k: int| 0 <= k < refs.len() ==> idx.contains(#[trigger] refs[k].tag@),
    ensures
        block_lines(refs, idx, page).len() == refs.len(),
{
    lemma_block_count(refs, idx, page);
    lemma_count_all(refs, idx);
}

} // verus!
