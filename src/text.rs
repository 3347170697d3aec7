//! Character-level helpers: whitespace, trimming, line splitting and
//! decimal rendering, each stated over `Seq<char>`.
use vstd::prelude::*;

verus! {

/// Unicode `White_Space` property, the notion of whitespace used by `str::trim`.
pub open spec fn is_ws(c: char) -> bool {
    let n = c as u32;
    (9 <= n && n <= 13) || n == 32 || n == 0x85 || n == 0xA0 || n == 0x1680 || (0x2000 <= n
        && n <= 0x200A) || n == 0x2028 || n == 0x2029 || n == 0x202F || n == 0x205F || n == 0x3000
}

pub fn is_whitespace(c: char) -> (r: bool)
    ensures
        r == is_ws(c),
{
    let n = c as u32;
    (9 <= n && n <= 13) || n == 32 || n == 0x85 || n == 0xA0 || n == 0x1680 || (0x2000 <= n
        && n <= 0x200A) || n == 0x2028 || n == 0x2029 || n == 0x202F || n == 0x205F || n == 0x3000
}

/// `s` without its leading whitespace.
pub open spec fn trim_start(s: Seq<char>) -> Seq<char>
    decreases s.len(),
{
    if s.len() > 0 && is_ws(s[0]) {
        trim_start(s.drop_first())
    } else {
        s
    }
}

/// `s` without its trailing whitespace.
pub open spec fn trim_end(s: Seq<char>) -> Seq<char>
    decreases s.len(),
{
    if s.len() > 0 && is_ws(s.last()) {
        trim_end(s.drop_last())
    } else {
        s
    }
}

/// `s` without leading and trailing whitespace, as `str::trim` returns it.
pub open spec fn trim(s: Seq<char>) -> Seq<char> {
    trim_end(trim_start(s))
}

/// Index of the first `'\n'` in `s`, or `s.len()` when there is none.
pub open spec fn line_end(s: Seq<char>) -> int
    decreases s.len(),
{
    if s.len() == 0 {
        0
    } else if s[0] == '\n' {
        0
    } else {
        1 + line_end(s.drop_first())
    }
}

/// A line with the `'\r'` of a `"\r\n"` ending removed.
pub open spec fn strip_cr(l: Seq<char>) -> Seq<char> {
    if l.len() > 0 && l.last() == '\r' {
        l.drop_last()
    } else {
        l
    }
}

/// The lines of `s` as `str::lines` yields them: split at `'\n'` or `"\r\n"`,
/// the final line ending being optional.
pub open spec fn lines(s: Seq<char>) -> Seq<Seq<char>>
    decreases s.len(),
{
    if s.len() == 0 {
        seq![]
    } else {
        let k = line_end(s);
        if 0 <= k < s.len() {
            seq![strip_cr(s.subrange(0, k))] + lines(s.subrange(k + 1, s.len() as int))
        } else {
            seq![s]
        }
    }
}

/// Decimal digits of `n`, without leading zeros.
pub open spec fn decimal(n: nat) -> Seq<char>
    decreases n,
{
    if n < 10 {
        seq![digit_char(n)]
    } else {
        decimal(n / 10).push(digit_char(n % 10))
    }
}

pub open spec fn digit_char(d: nat) -> char {
    if d == 0 { '0' }
    else if d == 1 { '1' }
    else if d == 2 { '2' }
    else if d == 3 { '3' }
    else if d == 4 { '4' }
    else if d == 5 { '5' }
    else if d == 6 { '6' }
    else if d == 7 { '7' }
    else if d == 8 { '8' }
    else { '9' }
}

/// Whether `c` is a Unicode decimal digit (general category `Nd`): what the
/// regex class `\d` matches in its default, Unicode-aware mode.
pub uninterp spec fn decimal_digit(c: char) -> bool;

/// Relies on the regex crate's `\d`: whether the character alone matches it.
/// The pattern is fixed and valid, so `Regex::new` succeeds.
#[verifier::external_body]
pub(crate) fn is_decimal_digit(c: char) -> (r: bool)
    ensures
        r == decimal_digit(c),
{
    let mut buf = [0u8; 4];
    regex::Regex::new(r"\A\d\z").unwrap().is_match(c.encode_utf8(&mut buf))
}

/// Relies on `String::push`: the character is appended at the end.
#[verifier::external_body]
pub(crate) fn push_char(s: &mut String, c: char)
    ensures
        final(s)@ == old(s)@.push(c),
{
    s.push(c)
}

/// The characters of `s`, in order.
pub fn chars_of(s: &str) -> (r: Vec<char>)
    ensures
        r@ == s@,
{
    broadcast use vstd::string::group_string_axioms;
    let mut r: Vec<char> = Vec::new();
    for c in it: s.chars()
        invariant
            it.seq() == s@,
            r@ == it.seq().take(it.index() as int),
    {
        r.push(c);
    }
    assert(r@ =~= s@);
    r
}

/// Appends the characters `v[lo..hi]` to `s`.
pub fn push_range(s: &mut String, v: &Vec<char>, lo: usize, hi: usize)
    requires
        lo <= hi <= v.len(),
    ensures
        final(s)@ == old(s)@ + v@.subrange(lo as int, hi as int),
{
    let mut i = lo;
    while i < hi
        invariant
            lo <= i <= hi <= v.len(),
            s@ == old(s)@ + v@.subrange(lo as int, i as int),
        decreases hi - i,
    {
        push_char(s, v[i]);
        assert(v@.subrange(lo as int, i + 1) =~= v@.subrange(lo as int, i as int).push(v@[i as int]));
        i = i + 1;
    }
}

/// A copy of `v`.
pub fn copy_chars(v: &Vec<char>) -> (r: Vec<char>)
    ensures
        r@ == v@,
{
    let mut r: Vec<char> = Vec::new();
    let mut i: usize = 0;
    while i < v.len()
        invariant
            i <= v.len(),
            r@ == v@.take(i as int),
        decreases v.len() - i,
    {
        r.push(v[i]);
        assert(v@.take(i + 1) =~= v@.take(i as int).push(v@[i as int]));
        i = i + 1;
    }
    assert(v@.take(v.len() as int) =~= v@);
    r
}

/// A `String` holding the characters of `v`.
pub fn string_of(v: &Vec<char>) -> (r: String)
    ensures
        r@ == v@,
{
    let mut s = String::new();
    push_range(&mut s, v, 0, v.len());
    assert(v@.subrange(0, v@.len() as int) =~= v@);
    s
}

/// Bounds `(a, b)` such that `v[a..b]` is `v` trimmed.
pub fn trim_bounds(v: &Vec<char>, lo: usize, hi: usize) -> (r: (usize, usize))
    requires
        lo <= hi <= v.len(),
    ensures
        lo <= r.0 <= r.1 <= hi,
        v@.subrange(r.0 as int, r.1 as int) == trim(v@.subrange(lo as int, hi as int)),
{
    let ghost s = v@.subrange(lo as int, hi as int);
    let mut i = lo;
    while i < hi && is_whitespace(v[i])
        invariant
            lo <= i <= hi <= v.len(),
            s == v@.subrange(lo as int, hi as int),
            trim_start(s) == trim_start(v@.subrange(i as int, hi as int)),
        decreases hi - i,
    {
        assert(v@.subrange(i as int, hi as int).drop_first() =~= v@.subrange(i + 1, hi as int));
        i = i + 1;
    }
    let mut j = hi;
    while j > i && is_whitespace(v[j - 1])
        invariant
            lo <= i <= j <= hi <= v.len(),
            trim_start(s) == v@.subrange(i as int, hi as int),
            trim(s) == trim_end(v@.subrange(i as int, j as int)),
        decreases j - i,
    {
        assert(v@.subrange(i as int, j as int).drop_last() =~= v@.subrange(i as int, j - 1));
        j = j - 1;
    }
    (i, j)
}

/// A `String` holding `trim(s)`.
pub fn trimmed(v: &Vec<char>) -> (r: String)
    ensures
        r@ == trim(v@),
{
    let (a, b) = trim_bounds(v, 0, v.len());
    assert(v@.subrange(0, v@.len() as int) =~= v@);
    let mut s = String::new();
    push_range(&mut s, v, a, b);
    s
}

/// Appends the decimal digits of `n` to `s`.
pub fn push_decimal(s: &mut String, n: usize)
    ensures
        final(s)@ == old(s)@ + decimal(n as nat),
    decreases n,
{
    if n >= 10 {
        push_decimal(s, n / 10);
    }
    let d = n % 10;
    let c = if d == 0 { '0' } else if d == 1 { '1' } else if d == 2 { '2' } else if d == 3 {
        '3'
    } else if d == 4 { '4' } else if d == 5 { '5' } else if d == 6 { '6' } else if d == 7 {
        '7'
    } else if d == 8 { '8' } else { '9' };
    push_char(s, c);
    assert(s@ =~= old(s)@ + decimal(n as nat));
}

/// Every character of `w` is whitespace.
pub open spec fn all_ws(w: Seq<char>) -> bool {
    forall|i: int| 0 <= i < w.len() ==> is_ws(#[trigger] w[i])
}

/// `trim_start` keeps a suffix, which is empty or starts with a non-space.
pub proof fn lemma_trim_start_shape(x: Seq<char>) -> (k: int)
    ensures
        0 <= k <= x.len(),
        trim_start(x) == x.subrange(k, x.len() as int),
        trim_start(x).len() > 0 ==> !is_ws(trim_start(x)[0]),
    decreases x.len(),
{
    if x.len() > 0 && is_ws(x[0]) {
        let k1 = lemma_trim_start_shape(x.drop_first());
        assert(x.drop_first().subrange(k1, x.len() - 1) =~= x.subrange(k1 + 1, x.len() as int));
        k1 + 1
    } else {
        assert(x.subrange(0, x.len() as int) =~= x);
        0
    }
}

/// `trim_end` keeps a prefix, which is empty or ends with a non-space.
pub proof fn lemma_trim_end_shape(x: Seq<char>) -> (k: int)
    ensures
        0 <= k <= x.len(),
        trim_end(x) == x.subrange(0, k),
        trim_end(x).len() > 0 ==> !is_ws(trim_end(x).last()),
    decreases x.len(),
{
    if x.len() > 0 && is_ws(x.last()) {
        let k1 = lemma_trim_end_shape(x.drop_last());
        assert(x.drop_last().subrange(0, k1) =~= x.subrange(0, k1));
        k1
    } else {
        assert(x.subrange(0, x.len() as int) =~= x);
        x.len() as int
    }
}

/// A trimmed text starts and ends with a non-space.
pub proof fn lemma_trim_ends(x: Seq<char>)
    ensures
        trim(x).len() > 0 ==> !is_ws(trim(x)[0]) && !is_ws(trim(x).last()),
{
    let a = lemma_trim_start_shape(x);
    let y = trim_start(x);
    let b = lemma_trim_end_shape(y);
    if trim(x).len() > 0 {
        assert(trim(x)[0] == y[0]);
    }
}

proof fn lemma_trim_start_ws(w: Seq<char>, y: Seq<char>)
    requires
        all_ws(w),
    ensures
        trim_start(w + y) == trim_start(y),
    decreases w.len(),
{
    if w.len() > 0 {
        assert((w + y)[0] == w[0]);
        assert((w + y).drop_first() =~= w.drop_first() + y);
        lemma_trim_start_ws(w.drop_first(), y);
    } else {
        assert(w + y =~= y);
    }
}

proof fn lemma_trim_end_ws(y: Seq<char>, w: Seq<char>)
    requires
        all_ws(w),
    ensures
        trim_end(y + w) == trim_end(y),
    decreases w.len(),
{
    if w.len() > 0 {
        assert((y + w).last() == w.last());
        assert((y + w).drop_last() =~= y + w.drop_last());
        lemma_trim_end_ws(y, w.drop_last());
    } else {
        assert(y + w =~= y);
    }
}

/// Whitespace around a text that starts and ends with a non-space is trimmed
/// away, and nothing more.
pub proof fn lemma_trim_pad(w1: Seq<char>, p: Seq<char>, w2: Seq<char>)
    requires
        all_ws(w1),
        all_ws(w2),
        p.len() > 0 ==> !is_ws(p[0]) && !is_ws(p.last()),
    ensures
        trim(w1 + p + w2) == p,
{
    assert(w1 + p + w2 =~= w1 + (p + w2));
    lemma_trim_start_ws(w1, p + w2);
    if p.len() > 0 {
        assert((p + w2)[0] == p[0]);
        assert(trim_start(p + w2) == p + w2);
        lemma_trim_end_ws(p, w2);
        assert(trim_end(p) == p);
    } else {
        assert(p + w2 =~= w2);
        lemma_trim_start_ws(w2, Seq::<char>::empty());
        assert(w2 + Seq::<char>::empty() =~= w2);
        assert(trim_start(Seq::<char>::empty()) == Seq::<char>::empty());
        assert(trim_end(Seq::<char>::empty()) == Seq::<char>::empty());
        assert(p =~= Seq::<char>::empty());
    }
}

/// Trimming twice is trimming once.
pub proof fn lemma_trim_idempotent(x: Seq<char>)
    ensures
        trim(trim(x)) == trim(x),
{
    lemma_trim_ends(x);
    lemma_trim_pad(Seq::<char>::empty(), trim(x), Seq::<char>::empty());
    assert(Seq::<char>::empty() + trim(x) + Seq::<char>::empty() =~= trim(x));
}

/// The first `'\n'` of `s` stands at `k` when none stands before it.
pub proof fn lemma_line_end(s: Seq<char>, k: int)
    requires
        0 <= k <= s.len(),
        forall|j: int| 0 <= j < k ==> s[j] != '\n',
        k == s.len() || s[k] == '\n',
    ensures
        line_end(s) == k,
    decreases k,
{
    if k > 0 {
        lemma_line_end(s.drop_first(), k - 1);
    }
}

/// The content of a line of `v` (a `"\r\n"` ending excluded) as a pair of bounds.
pub open spec fn range_of(v: Seq<char>, b: (usize, usize)) -> Seq<char> {
    v.subrange(b.0 as int, b.1 as int)
}

/// The lines of `v`, as `str::lines` yields them, given as bounds into `v`.
pub fn line_bounds(v: &Vec<char>) -> (r: Vec<(usize, usize)>)
    ensures
        r@.map_values(|b: (usize, usize)| range_of(v@, b)) == lines(v@),
        forall|k: int| 0 <= k < r.len() ==> (#[trigger] r[k]).0 <= r[k].1 <= v.len(),
{
    let mut r: Vec<(usize, usize)> = Vec::new();
    let mut start: usize = 0;
    let mut i: usize = 0;
    assert(v@.subrange(0, v.len() as int) =~= v@);
    assert(r@.map_values(|b: (usize, usize)| range_of(v@, b)) =~= seq![]);
    while i < v.len()
        invariant
            start <= i <= v.len(),
            forall|j: int| start <= j < i ==> v@[j] != '\n',
            lines(v@) == r@.map_values(|b: (usize, usize)| range_of(v@, b)) + lines(
                v@.subrange(start as int, v.len() as int),
            ),
            forall|k: int| 0 <= k < r.len() ==> (#[trigger] r[k]).0 <= r[k].1 <= v.len(),
        decreases v.len() - i,
    {
        if v[i] == '\n' {
            let ghost sub = v@.subrange(start as int, v.len() as int);
            proof {
                lemma_line_end(sub, i - start);
                assert(sub.subrange(0, i - start) =~= v@.subrange(start as int, i as int));
                assert(sub.subrange(i - start + 1, sub.len() as int) =~= v@.subrange(
                    i + 1,
                    v.len() as int,
                ));
            }
            let end = if i > start && v[i - 1] == '\r' {
                i - 1
            } else {
                i
            };
            assert(range_of(v@, (start, end)) =~= strip_cr(v@.subrange(start as int, i as int)));
            let ghost before = r@;
            r.push((start, end));
            assert(r@.map_values(|b: (usize, usize)| range_of(v@, b)) =~= before.map_values(
                |b: (usize, usize)| range_of(v@, b),
            ).push(range_of(v@, (start, end))));
            start = i + 1;
        }
        i = i + 1;
    }
    let ghost sub = v@.subrange(start as int, v.len() as int);
    if start < v.len() {
        proof {
            lemma_line_end(sub, sub.len() as int);
        }
        let ghost before = r@;
        r.push((start, v.len()));
        assert(r@.map_values(|b: (usize, usize)| range_of(v@, b)) =~= before.map_values(
            |b: (usize, usize)| range_of(v@, b),
        ).push(range_of(v@, (start, v.len()))));
    } else {
        assert(sub.len() == 0);
    }
    assert(r@.map_values(|b: (usize, usize)| range_of(v@, b)) =~= lines(v@));
    r
}

} // verus!
