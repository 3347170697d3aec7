//! Searching for fixed patterns in a character sequence.
use vstd::prelude::*;

verus! {

/// Whether `pat` occurs in `s` at `i`.
pub open spec fn occurs_at(s: Seq<char>, pat: Seq<char>, i: int) -> bool {
    0 <= i && i + pat.len() <= s.len() && s.subrange(i, i + pat.len()) == pat
}

/// The first occurrence of `pat` in `s` at or after `i` that starts before the
/// next `'\n'`.
pub open spec fn find_in_line(s: Seq<char>, pat: Seq<char>, i: int) -> Option<int>
    decreases s.len() - i,
{
    if i < 0 || i >= s.len() || i + pat.len() > s.len() {
        None
    } else if occurs_at(s, pat, i) {
        Some(i)
    } else if s[i] == '\n' {
        None
    } else {
        find_in_line(s, pat, i + 1)
    }
}

/// The first occurrence of `pat` in `s` at or after `i`.
pub open spec fn find_from(s: Seq<char>, pat: Seq<char>, i: int) -> Option<int>
    decreases s.len() - i,
{
    if i < 0 || i >= s.len() || i + pat.len() > s.len() {
        None
    } else if occurs_at(s, pat, i) {
        Some(i)
    } else {
        find_from(s, pat, i + 1)
    }
}

/// The index of the first `'\n'` at or after `i`, or `s.len()`.
pub open spec fn line_stop(s: Seq<char>, i: int) -> int
    decreases s.len() - i,
{
    if i < 0 || i >= s.len() || s[i] == '\n' {
        i
    } else {
        line_stop(s, i + 1)
    }
}

/// What `find_in_line` finds is an occurrence, after `i`, with no line break
/// before it.
pub proof fn lemma_find_in_line(s: Seq<char>, pat: Seq<char>, i: int)
    ensures
        find_in_line(s, pat, i) matches Some(k) ==> i <= k && occurs_at(s, pat, k) && forall|j: int|
            i <= j < k ==> s[j] != '\n',
    decreases s.len() - i,
{
    if !(i < 0 || i >= s.len() || i + pat.len() > s.len()) && !occurs_at(s, pat, i) && s[i]
        != '\n' {
        lemma_find_in_line(s, pat, i + 1);
    }
}

/// What `find_from` finds is an occurrence at or after `i`.
pub proof fn lemma_find_from(s: Seq<char>, pat: Seq<char>, i: int)
    ensures
        find_from(s, pat, i) matches Some(k) ==> i <= k && occurs_at(s, pat, k),
    decreases s.len() - i,
{
    if !(i < 0 || i >= s.len() || i + pat.len() > s.len()) && !occurs_at(s, pat, i) {
        lemma_find_from(s, pat, i + 1);
    }
}

pub fn occurs_at_exec(v: &Vec<char>, pat: &Vec<char>, i: usize) -> (r: bool)
    ensures
        r == occurs_at(v@, pat@, i as int),
{
    if i > v.len() || pat.len() > v.len() - i {
        return false;
    }
    let mut k: usize = 0;
    while k < pat.len()
        invariant
            k <= pat.len(),
            i + pat.len() <= v.len(),
            forall|j: int| 0 <= j < k ==> v@[i + j] == pat@[j],
        decreases pat.len() - k,
    {
        if v[i + k] != pat[k] {
            assert(v@.subrange(i as int, i + pat.len())[k as int] != pat@[k as int]);
            return false;
        }
        k = k + 1;
    }
    assert(v@.subrange(i as int, i + pat.len()) =~= pat@);
    true
}

pub fn find_in_line_exec(v: &Vec<char>, pat: &Vec<char>, i: usize) -> (r: Option<usize>)
    ensures
        match r {
            None => find_in_line(v@, pat@, i as int) is None,
            Some(k) => find_in_line(v@, pat@, i as int) == Some(k as int),
        },
{
    let mut k = i;
    while k < v.len() && pat.len() <= v.len() - k
        invariant
            i <= k,
            find_in_line(v@, pat@, i as int) == find_in_line(v@, pat@, k as int),
        decreases v.len() - k,
    {
        if occurs_at_exec(v, pat, k) {
            return Some(k);
        }
        if v[k] == '\n' {
            return None;
        }
        k = k + 1;
    }
    None
}

pub fn find_from_exec(v: &Vec<char>, pat: &Vec<char>, i: usize) -> (r: Option<usize>)
    ensures
        match r {
            None => find_from(v@, pat@, i as int) is None,
            Some(k) => find_from(v@, pat@, i as int) == Some(k as int),
        },
{
    let mut k = i;
    while k < v.len() && pat.len() <= v.len() - k
        invariant
            i <= k,
            find_from(v@, pat@, i as int) == find_from(v@, pat@, k as int),
        decreases v.len() - k,
    {
        if occurs_at_exec(v, pat, k) {
            return Some(k);
        }
        k = k + 1;
    }
    None
}

pub fn line_stop_exec(v: &Vec<char>, i: usize) -> (r: usize)
    requires
        i <= v.len(),
    ensures
        r as int == line_stop(v@, i as int),
        i <= r <= v.len(),
{
    let mut k = i;
    while k < v.len() && v[k] != '\n'
        invariant
            i <= k <= v.len(),
            line_stop(v@, i as int) == line_stop(v@, k as int),
        decreases v.len() - k,
    {
        k = k + 1;
    }
    k
}

} // verus!
