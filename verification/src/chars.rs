//! Character sequences: the searches that the reader and the matcher share.

use vstd::prelude::*;

verus! {

/// The first index `i >= from` with `s[i] == c`, or `s.len()` if there is none.
pub open spec fn next_char(s: Seq<char>, c: char, from: int) -> int
    decreases s.len() - from,
{
    if from < 0 || from >= s.len() {
        s.len() as int
    } else if s[from] == c {
        from
    } else {
        next_char(s, c, from + 1)
    }
}

/// `next_char` is the first occurrence at or after `from`.
pub proof fn lemma_next_char(s: Seq<char>, c: char, from: int)
    requires
        0 <= from <= s.len(),
    ensures
        from <= next_char(s, c, from) <= s.len(),
        next_char(s, c, from) < s.len() ==> s[next_char(s, c, from)] == c,
        forall|j: int| from <= j < next_char(s, c, from) ==> s[j] != c,
    decreases s.len() - from,
{
    if from < s.len() && s[from] != c {
        lemma_next_char(s, c, from + 1);
    }
}

/// The characters of `s` at `i..i + pat.len()` spell `pat`.
pub open spec fn matches_at(s: Seq<char>, pat: Seq<char>, i: int) -> bool {
    s.subrange(i, i + pat.len()) == pat
}

/// The first index `i >= from` at which `pat` occurs in `s`, if any.
pub open spec fn find_pattern(s: Seq<char>, pat: Seq<char>, from: int) -> Option<int>
    decreases s.len() - from,
{
    if from < 0 || from + pat.len() > s.len() {
        None
    } else if matches_at(s, pat, from) {
        Some(from)
    } else if from >= s.len() {
        None
    } else {
        find_pattern(s, pat, from + 1)
    }
}

/// `find_pattern` gives the first occurrence at or after `from`.
pub proof fn lemma_find_pattern(s: Seq<char>, pat: Seq<char>, from: int)
    requires
        0 <= from,
    ensures
        find_pattern(s, pat, from) matches Some(i) ==> from <= i && i + pat.len() <= s.len() && matches_at(s, pat, i),
    decreases s.len() - from,
{
    if 0 <= from && from + pat.len() <= s.len() && !matches_at(s, pat, from) && from < s.len() {
        lemma_find_pattern(s, pat, from + 1);
    }
}

/// Copies the characters of a string slice into a vector.
pub fn chars_of(s: &str) -> (v: Vec<char>)
    ensures
        v@ == s@,
{
    let mut v: Vec<char> = Vec::new();
    for c in it: s.chars()
        invariant
            v@ == it.seq().take(it.index() as int),
            it.seq() == s@,
    {
        v.push(c);
        assert(v@ == it.seq().take(it.index() + 1));
    }
    v
}

/// Whether two character sequences are equal.
pub fn chars_eq(a: &[char], b: &[char]) -> (r: bool)
    ensures
        r == (a@ == b@),
{
    if a.len() != b.len() {
        return false;
    }
    let mut i: usize = 0;
    while i < a.len()
        invariant
            a@.len() == b@.len(),
            i <= a@.len(),
            forall|j: int| 0 <= j < i ==> a@[j] == b@[j],
        decreases a@.len() - i,
    {
        if a[i] != b[i] {
            return false;
        }
        i += 1;
    }
    assert(a@ =~= b@);
    true
}

/// A copy of `s[from..to]`.
pub fn copy_range(s: &[char], from: usize, to: usize) -> (r: Vec<char>)
    requires
        from <= to <= s@.len(),
    ensures
        r@ == s@.subrange(from as int, to as int),
{
    let mut r: Vec<char> = Vec::new();
    let mut i: usize = from;
    while i < to
        invariant
            from <= i <= to <= s@.len(),
            r@ == s@.subrange(from as int, i as int),
        decreases to - i,
    {
        r.push(s[i]);
        i += 1;
        assert(r@ =~= s@.subrange(from as int, i as int));
    }
    r
}

/// The index of the first `c` in `s[from..]`, or `s.len()`.
pub fn find_char_from(s: &[char], c: char, from: usize) -> (r: usize)
    requires
        from <= s@.len(),
    ensures
        r == next_char(s@, c, from as int),
{
    let mut i: usize = from;
    while i < s.len()
        invariant
            from <= i <= s@.len(),
            next_char(s@, c, i as int) == next_char(s@, c, from as int),
        decreases s@.len() - i,
    {
        if s[i] == c {
            return i;
        }
        i += 1;
    }
    i
}

/// The index of the first occurrence of `pat` in `s[from..]`, if any.
pub fn find_pattern_from(s: &[char], pat: &[char], from: usize) -> (r: Option<usize>)
    requires
        from <= s@.len(),
        pat@.len() > 0,
    ensures
        r matches Some(i) ==> find_pattern(s@, pat@, from as int) == Some(i as int),
        r is None ==> find_pattern(s@, pat@, from as int) is None,
{
    let n: usize = s.len();
    let mut i: usize = from;
    while i < n
        invariant
            from <= i <= n,
            n == s@.len(),
            pat@.len() > 0,
            find_pattern(s@, pat@, i as int) == find_pattern(s@, pat@, from as int),
        decreases n - i,
    {
        if pat.len() > n - i {
            return None;
        }
        let mut k: usize = 0;
        let mut same: bool = true;
        while k < pat.len()
            invariant
                i + pat@.len() <= n,
                n == s@.len(),
                k <= pat@.len(),
                same == forall|m: int| 0 <= m < k ==> s@[i + m] == pat@[m],
            decreases pat@.len() - k,
        {
            if s[i + k] != pat[k] {
                same = false;
            }
            k += 1;
        }
        if same {
            assert(s@.subrange(i as int, i + pat@.len()) =~= pat@);
            return Some(i);
        }
        proof {
            let m = choose|m: int| 0 <= m < pat@.len() && s@[i + m] != pat@[m];
            assert(s@.subrange(i as int, i + pat@.len())[m] == s@[i + m]);
        }
        i += 1;
    }
    None
}

} // verus!
