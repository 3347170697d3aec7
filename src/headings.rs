//! Numbering repeated slide titles: adjacent headings with the same title get
//! ` (k/n)` markers, and a table of contents lists each run of titles once.
use vstd::prelude::*;

use crate::text::{
    chars_of, copy_chars, decimal, decimal_digit, is_decimal_digit, push_char, push_decimal,
    push_range, string_of, trim, trim_bounds,
};

verus! {

/// Whether `l` starts with `prefix`.
pub open spec fn is_heading(l: Seq<char>, prefix: Seq<char>) -> bool {
    prefix.len() <= l.len() && l.subrange(0, prefix.len() as int) == prefix
}

/// The start of the run of digits that ends before `e`.
pub open spec fn digit_run_start(l: Seq<char>, e: int) -> int
    decreases e,
{
    if e <= 0 || e > l.len() || !decimal_digit(l[e - 1]) {
        e
    } else {
        digit_run_start(l, e - 1)
    }
}

/// Where a trailing `(<digits>/<digits>)` marker starts in `l`, if `l` ends
/// with one.
pub open spec fn counter_start(l: Seq<char>) -> Option<int> {
    let n = l.len() as int;
    if n >= 5 && l[n - 1] == ')' {
        let b2 = digit_run_start(l, n - 1);
        if 1 <= b2 < n - 1 && l[b2 - 1] == '/' {
            let b1 = digit_run_start(l, b2 - 1);
            if 1 <= b1 < b2 - 1 && l[b1 - 1] == '(' {
                Some(b1 - 1)
            } else {
                None
            }
        } else {
            None
        }
    } else {
        None
    }
}

/// A heading line with a marker from an earlier run removed, then trimmed.
pub open spec fn normalize(l: Seq<char>) -> Seq<char> {
    match counter_start(l) {
        Some(p) => trim(l.subrange(0, p)),
        None => trim(l),
    }
}

/// The normalized titles of the heading lines of `ls`, in order.
pub open spec fn titles(ls: Seq<Seq<char>>, prefix: Seq<char>) -> Seq<Seq<char>>
    decreases ls.len(),
{
    if ls.len() == 0 {
        seq![]
    } else {
        let t = titles(ls.drop_last(), prefix);
        if is_heading(ls.last(), prefix) {
            t.push(normalize(ls.last()))
        } else {
            t
        }
    }
}

/// The first position of the run of equal titles that holds position `m`.
pub open spec fn run_start(ts: Seq<Seq<char>>, m: int) -> int
    decreases m,
{
    if 0 < m < ts.len() && ts[m - 1] == ts[m] {
        run_start(ts, m - 1)
    } else {
        m
    }
}

/// One past the last position of the run of equal titles that holds position `m`.
pub open spec fn run_end(ts: Seq<Seq<char>>, m: int) -> int
    decreases ts.len() - m,
{
    if 0 <= m && m + 1 < ts.len() && ts[m + 1] == ts[m] {
        run_end(ts, m + 1)
    } else {
        m + 1
    }
}

/// `title (k/n)`
pub open spec fn marked(title: Seq<char>, k: nat, n: nat) -> Seq<char> {
    title + seq![' ', '('] + decimal(k) + seq!['/'] + decimal(n) + seq![')']
}

/// The title at position `m`, marked with its place in its run when the run
/// holds more than one.
pub open spec fn label(ts: Seq<Seq<char>>, m: int) -> Seq<char> {
    let a = run_start(ts, m);
    let b = run_end(ts, m);
    if b - a > 1 {
        marked(ts[m], (m - a + 1) as nat, (b - a) as nat)
    } else {
        ts[m]
    }
}

/// Line `j` after numbering: a heading becomes its label, any other line stays.
pub open spec fn numbered_line(ls: Seq<Seq<char>>, prefix: Seq<char>, j: int) -> Seq<char> {
    if is_heading(ls[j], prefix) {
        label(titles(ls, prefix), titles(ls.take(j), prefix).len() as int)
    } else {
        ls[j]
    }
}

/// The lines after numbering, followed by one empty line.
pub open spec fn numbered(ls: Seq<Seq<char>>, prefix: Seq<char>) -> Seq<Seq<char>> {
    Seq::new(ls.len(), |j: int| numbered_line(ls, prefix, j)).push(seq![])
}

/// `s` with every leading occurrence of `p` removed (none when `p` is empty),
/// as `str::trim_start_matches` returns it.
pub open spec fn strip_prefixes(s: Seq<char>, p: Seq<char>) -> Seq<char>
    decreases s.len(),
{
    if p.len() > 0 && is_heading(s, p) {
        strip_prefixes(s.subrange(p.len() as int, s.len() as int), p)
    } else {
        s
    }
}

/// `1. <title>` and a line break: one entry of the table of contents.
pub open spec fn toc_entry(title: Seq<char>, prefix: Seq<char>) -> Seq<char> {
    seq!['1', '.', ' '] + trim(strip_prefixes(title, prefix)) + seq!['\n']
}

/// The table of contents: one entry per run of equal titles, in order.
pub open spec fn toc(ts: Seq<Seq<char>>, prefix: Seq<char>) -> Seq<char>
    decreases ts.len(),
{
    if ts.len() == 0 {
        seq![]
    } else if ts.len() >= 2 && ts[ts.len() - 2] == ts.last() {
        toc(ts.drop_last(), prefix)
    } else {
        toc(ts.drop_last(), prefix) + toc_entry(ts.last(), prefix)
    }
}

fn digit_run_start_exec(l: &Vec<char>, e: usize) -> (r: usize)
    requires
        e <= l.len(),
    ensures
        r as int == digit_run_start(l@, e as int),
        r <= e,
{
    let mut k = e;
    while k > 0 && is_decimal_digit(l[k - 1])
        invariant
            k <= e <= l.len(),
            digit_run_start(l@, e as int) == digit_run_start(l@, k as int),
        decreases k,
    {
        k = k - 1;
    }
    k
}

fn counter_start_exec(l: &Vec<char>) -> (r: Option<usize>)
    ensures
        match r {
            None => counter_start(l@) is None,
            Some(p) => counter_start(l@) == Some(p as int) && p <= l.len(),
        },
{
    let n = l.len();
    if n >= 5 && l[n - 1] == ')' {
        let b2 = digit_run_start_exec(l, n - 1);
        if 1 <= b2 && b2 < n - 1 && l[b2 - 1] == '/' {
            let b1 = digit_run_start_exec(l, b2 - 1);
            if 1 <= b1 && b1 < b2 - 1 && l[b1 - 1] == '(' {
                return Some(b1 - 1);
            }
        }
    }
    None
}

/// A heading line with its marker removed, then trimmed.
pub fn normalize_exec(l: &Vec<char>) -> (r: Vec<char>)
    ensures
        r@ == normalize(l@),
{
    let end = match counter_start_exec(l) {
        Some(p) => p,
        None => l.len(),
    };
    let (a, b) = trim_bounds(l, 0, end);
    assert(l@.subrange(0, l@.len() as int) =~= l@);
    let mut r: Vec<char> = Vec::new();
    let mut i = a;
    while i < b
        invariant
            a <= i <= b <= l.len(),
            r@ == l@.subrange(a as int, i as int),
        decreases b - i,
    {
        r.push(l[i]);
        assert(l@.subrange(a as int, i + 1) =~= l@.subrange(a as int, i as int).push(l@[i as int]));
        i = i + 1;
    }
    r
}

/// Whether `l` starts with `p`.
pub fn is_heading_exec(l: &Vec<char>, p: &Vec<char>) -> (r: bool)
    ensures
        r == is_heading(l@, p@),
{
    if p.len() > l.len() {
        return false;
    }
    let mut k: usize = 0;
    while k < p.len()
        invariant
            k <= p.len() <= l.len(),
            forall|j: int| 0 <= j < k ==> l@[j] == p@[j],
        decreases p.len() - k,
    {
        if l[k] != p[k] {
            assert(l@.subrange(0, p.len() as int)[k as int] != p@[k as int]);
            return false;
        }
        k = k + 1;
    }
    assert(l@.subrange(0, p.len() as int) =~= p@);
    true
}

fn seq_eq(a: &Vec<char>, b: &Vec<char>) -> (r: bool)
    ensures
        r == (a@ == b@),
{
    if a.len() != b.len() {
        return false;
    }
    let mut k: usize = 0;
    while k < a.len()
        invariant
            k <= a.len() == b.len(),
            forall|j: int| 0 <= j < k ==> a@[j] == b@[j],
        decreases a.len() - k,
    {
        if a[k] != b[k] {
            return false;
        }
        k = k + 1;
    }
    assert(a@ =~= b@);
    true
}

/// Appends a table of contents entry for `title` to `s`.
fn push_toc_entry(s: &mut String, title: &Vec<char>, p: &Vec<char>)
    ensures
        final(s)@ == old(s)@ + toc_entry(title@, p@),
{
    let mut start: usize = 0;
    assert(title@.subrange(0, title@.len() as int) =~= title@);
    if p.len() > 0 {
        while p.len() <= title.len() - start && is_heading_exec(&title_tail(title, start), p)
            invariant
                start <= title.len(),
                p.len() > 0,
                strip_prefixes(title@, p@) == strip_prefixes(
                    title@.subrange(start as int, title@.len() as int),
                    p@,
                ),
            decreases title.len() - start,
        {
            assert(title@.subrange(start as int, title@.len() as int).subrange(
                p.len() as int,
                title@.len() - start,
            ) =~= title@.subrange(start + p.len(), title@.len() as int));
            start = start + p.len();
        }
        proof {
            let rest = title@.subrange(start as int, title@.len() as int);
            if start + p.len() > title.len() {
                assert(!is_heading(rest, p@));
            }
            assert(strip_prefixes(rest, p@) == rest);
        }
    }
    let (a, b) = trim_bounds(title, start, title.len());
    push_char(s, '1');
    push_char(s, '.');
    push_char(s, ' ');
    push_range(s, title, a, b);
    push_char(s, '\n');
    assert(s@ =~= old(s)@ + toc_entry(title@, p@));
}

/// The characters of `v` from `start` on.
fn title_tail(v: &Vec<char>, start: usize) -> (r: Vec<char>)
    requires
        start <= v.len(),
    ensures
        r@ == v@.subrange(start as int, v@.len() as int),
{
    let mut r: Vec<char> = Vec::new();
    let mut i = start;
    while i < v.len()
        invariant
            start <= i <= v.len(),
            r@ == v@.subrange(start as int, i as int),
        decreases v.len() - i,
    {
        r.push(v[i]);
        assert(v@.subrange(start as int, i + 1) =~= v@.subrange(start as int, i as int).push(
            v@[i as int],
        ));
        i = i + 1;
    }
    r
}

/// The lines of a page with repeated adjacent titles numbered, followed by one
/// empty line, and the table of contents.
pub fn number_headings(lines: &Vec<String>, title_prefix: &str) -> (r: (Vec<String>, String))
    ensures
        r.0@.map_values(|l: String| l@) == numbered(lines@.map_values(|l: String| l@), title_prefix@),
        r.1@ == toc(titles(lines@.map_values(|l: String| l@), title_prefix@), title_prefix@),
{
    let ghost ls = lines@.map_values(|l: String| l@);
    let p = chars_of(title_prefix);
    // the lines as characters, and the titles of the headings
    let mut lsv: Vec<Vec<char>> = Vec::new();
    let mut ts: Vec<Vec<char>> = Vec::new();
    let mut j: usize = 0;
    while j < lines.len()
        invariant
            j <= lines.len(),
            ls == lines@.map_values(|l: String| l@),
            lsv@.map_values(|l: Vec<char>| l@) == ls.take(j as int),
            ts@.map_values(|l: Vec<char>| l@) == titles(ls.take(j as int), p@),
        decreases lines.len() - j,
    {
        let l = chars_of(lines[j].as_str());
        assert(ls.take(j + 1).drop_last() =~= ls.take(j as int));
        assert(ls.take(j + 1).last() == l@);
        if is_heading_exec(&l, &p) {
            let t = normalize_exec(&l);
            let ghost before = ts@;
            ts.push(t);
            assert(ts@.map_values(|l: Vec<char>| l@) =~= before.map_values(|l: Vec<char>| l@).push(
                t@,
            ));
        }
        let ghost before = lsv@;
        lsv.push(l);
        assert(lsv@.map_values(|l: Vec<char>| l@) =~= before.map_values(|l: Vec<char>| l@).push(
            l@,
        ));
        j = j + 1;
    }
    assert(ls.take(lines.len() as int) =~= ls);
    let ghost tsv = titles(ls, p@);
    // the table of contents
    let mut toc_s = String::new();
    let mut m: usize = 0;
    while m < ts.len()
        invariant
            m <= ts.len(),
            ts@.map_values(|l: Vec<char>| l@) == tsv,
            toc_s@ == toc(tsv.take(m as int), p@),
        decreases ts.len() - m,
    {
        assert(tsv.take(m + 1).drop_last() =~= tsv.take(m as int));
        if m >= 1 && seq_eq(&ts[m - 1], &ts[m]) {
        } else {
            push_toc_entry(&mut toc_s, &ts[m], &p);
        }
        m = m + 1;
    }
    assert(tsv.take(ts.len() as int) =~= tsv);
    // the label of each heading
    let mut labels: Vec<Vec<char>> = Vec::new();
    let mut a: usize = 0;
    while a < ts.len()
        invariant
            a <= ts.len(),
            ts@.map_values(|l: Vec<char>| l@) == tsv,
            labels.len() == a,
            a == 0 || a == ts.len() || tsv[a - 1] != tsv[a as int],
            forall|k: int| 0 <= k < a ==> (#[trigger] labels[k])@ == label(tsv, k),
        decreases ts.len() - a,
    {
        let mut b = a + 1;
        while b < ts.len() && seq_eq(&ts[b], &ts[a])
            invariant
                a < b <= ts.len(),
                ts@.map_values(|l: Vec<char>| l@) == tsv,
                forall|i: int| a <= i < b ==> tsv[i] == tsv[a as int],
            decreases ts.len() - b,
        {
            b = b + 1;
        }
        let mut k = a;
        while k < b
            invariant
                a <= k <= b <= ts.len(),
                ts@.map_values(|l: Vec<char>| l@) == tsv,
                forall|i: int| a <= i < b ==> tsv[i] == tsv[a as int],
                a == 0 || tsv[a - 1] != tsv[a as int],
                b == ts.len() || tsv[b as int] != tsv[a as int],
                labels.len() == k,
                forall|i: int| 0 <= i < k ==> (#[trigger] labels[i])@ == label(tsv, i),
            decreases b - k,
        {
            proof {
                lemma_run(tsv, a as int, b as int, k as int);
            }
            let mut l = copy_chars(&ts[k]);
            if b - a > 1 {
                l.push(' ');
                l.push('(');
                let mut num = String::new();
                push_decimal(&mut num, k - a + 1);
                push_char(&mut num, '/');
                push_decimal(&mut num, b - a);
                push_char(&mut num, ')');
                let nv = chars_of(num.as_str());
                let ghost l0 = l@;
                append_chars(&mut l, &nv);
                assert(l@ =~= marked(tsv[k as int], (k - a + 1) as nat, (b - a) as nat));
            }
            labels.push(l);
            k = k + 1;
        }
        a = b;
    }
    // the lines with their labels
    let mut out: Vec<String> = Vec::new();
    let mut h: usize = 0;
    let mut j: usize = 0;
    while j < lsv.len()
        invariant
            j <= lsv.len() == lines.len(),
            lsv@.map_values(|l: Vec<char>| l@) == ls,
            ls == lines@.map_values(|l: String| l@),
            tsv == titles(ls, p@),
            labels.len() == ts.len() == tsv.len(),
            forall|k: int| 0 <= k < labels.len() ==> (#[trigger] labels[k])@ == label(tsv, k),
            h == titles(ls.take(j as int), p@).len(),
            out@.map_values(|l: String| l@) == Seq::new(
                j as nat,
                |i: int| numbered_line(ls, p@, i),
            ),
        decreases lsv.len() - j,
    {
        proof {
            lemma_titles_prefix(ls, p@, j + 1, ls.len() as int);
            assert(ls.take(ls.len() as int) =~= ls);
            assert(ls.take(j + 1).drop_last() =~= ls.take(j as int));
        }
        let ghost before = out@;
        assert(lsv@[j as int]@ == ls[j as int]);
        if is_heading_exec(&lsv[j], &p) {
            let l = string_of(&labels[h]);
            assert(l@ == numbered_line(ls, p@, j as int));
            out.push(l);
            h = h + 1;
        } else {
            let l = lines[j].clone();
            assert(l@ == numbered_line(ls, p@, j as int));
            out.push(l);
        }
        assert(out@.map_values(|l: String| l@) =~= before.map_values(|l: String| l@).push(
            numbered_line(ls, p@, j as int),
        ));
        assert(out@.map_values(|l: String| l@) =~= Seq::new(
            (j + 1) as nat,
            |i: int| numbered_line(ls, p@, i),
        ));
        j = j + 1;
    }
    let ghost before = out@;
    out.push(String::new());
    assert(out@.map_values(|l: String| l@) =~= numbered(ls, p@));
    (out, toc_s)
}

/// Appends the characters of `t` to `v`.
fn append_chars(v: &mut Vec<char>, t: &Vec<char>)
    ensures
        final(v)@ == old(v)@ + t@,
{
    let mut i: usize = 0;
    while i < t.len()
        invariant
            i <= t.len(),
            v@ == old(v)@ + t@.take(i as int),
        decreases t.len() - i,
    {
        v.push(t[i]);
        assert(t@.take(i + 1) =~= t@.take(i as int).push(t@[i as int]));
        i = i + 1;
    }
    assert(t@.take(t.len() as int) =~= t@);
}

/// Within a maximal run `[a, b)` of equal titles, every position has that run.
pub proof fn lemma_run(ts: Seq<Seq<char>>, a: int, b: int, m: int)
    requires
        0 <= a <= m < b <= ts.len(),
        forall|i: int| a <= i < b ==> ts[i] == ts[a],
        a == 0 || ts[a - 1] != ts[a],
        b == ts.len() || ts[b] != ts[a],
    ensures
        run_start(ts, m) == a,
        run_end(ts, m) == b,
{
    lemma_run_start(ts, a, b, m);
    lemma_run_end(ts, a, b, m);
}

proof fn lemma_run_start(ts: Seq<Seq<char>>, a: int, b: int, m: int)
    requires
        0 <= a <= m < b <= ts.len(),
        forall|i: int| a <= i < b ==> ts[i] == ts[a],
        a == 0 || ts[a - 1] != ts[a],
    ensures
        run_start(ts, m) == a,
    decreases m - a,
{
    if m > a {
        lemma_run_start(ts, a, b, m - 1);
    }
}

proof fn lemma_run_end(ts: Seq<Seq<char>>, a: int, b: int, m: int)
    requires
        0 <= a <= m < b <= ts.len(),
        forall|i: int| a <= i < b ==> ts[i] == ts[a],
        b == ts.len() || ts[b] != ts[a],
    ensures
        run_end(ts, m) == b,
    decreases b - m,
{
    if m + 1 < b {
        lemma_run_end(ts, a, b, m + 1);
    }
}

/// The titles of a prefix of the lines are a prefix of the titles.
pub proof fn lemma_titles_prefix(ls: Seq<Seq<char>>, p: Seq<char>, j: int, k: int)
    requires
        0 <= j <= k <= ls.len(),
    ensures
        titles(ls.take(j), p).len() <= titles(ls.take(k), p).len(),
        titles(ls.take(j), p) == titles(ls.take(k), p).take(titles(ls.take(j), p).len() as int),
    decreases k - j,
{
    if j < k {
        lemma_titles_prefix(ls, p, j, k - 1);
        assert(ls.take(k).drop_last() =~= ls.take(k - 1));
        let t = titles(ls.take(k - 1), p);
        let n = titles(ls.take(j), p).len() as int;
        if is_heading(ls.take(k).last(), p) {
            assert(t.push(normalize(ls.take(k).last())).take(n) =~= t.take(n));
        }
    }
}

} // verus!
