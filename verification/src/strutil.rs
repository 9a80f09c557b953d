//! Character-level helpers over strings: locating a separator, prefix tests,
//! and membership/duplicate checks over string vectors.

use vstd::prelude::*;

verus! {

/// Index of the first occurrence of `c` in `s` at or after position `i`;
/// `s.len()` if there is none.
pub open spec fn first_at(s: Seq<char>, c: char, i: int) -> int
    decreases s.len() - i,
{
    if i < 0 || i >= s.len() {
        s.len() as int
    } else if s[i] == c {
        i
    } else {
        first_at(s, c, i + 1)
    }
}

pub proof fn lemma_first_at_bounds(s: Seq<char>, c: char, i: int)
    requires
        0 <= i <= s.len(),
    ensures
        i <= first_at(s, c, i) <= s.len(),
        first_at(s, c, i) < s.len() ==> s[first_at(s, c, i)] == c,
        forall|k: int| i <= k < first_at(s, c, i) ==> s[k] != c,
    decreases s.len() - i,
{
    if i < s.len() && s[i] != c {
        lemma_first_at_bounds(s, c, i + 1);
    }
}

/// If there is no `c` in `[i, j)` and either `j` is the end or `s[j] == c`,
/// then `j` is exactly the first occurrence at or after `i`.
pub proof fn lemma_first_at_is(s: Seq<char>, c: char, i: int, j: int)
    requires
        0 <= i <= j <= s.len(),
        forall|k: int| i <= k < j ==> s[k] != c,
        j == s.len() || s[j] == c,
    ensures
        first_at(s, c, i) == j,
    decreases j - i,
{
    if i < j {
        lemma_first_at_is(s, c, i + 1, j);
    }
}

/// First occurrence of `c` in `s` at or after `from`, or the length of `s`.
pub fn find_from(s: &str, c: char, from: usize) -> (r: usize)
    requires
        from <= s@.len(),
    ensures
        r == first_at(s@, c, from as int),
{
    let n: usize = s.unicode_len();
    let mut i: usize = from;
    while i < n
        invariant
            from <= i <= n,
            n == s@.len(),
            forall|k: int| from <= k < i ==> s@[k] != c,
        decreases n - i,
    {
        if s.get_char(i) == c {
            proof {
                lemma_first_at_is(s@, c, from as int, i as int);
            }
            return i;
        }
        i = i + 1;
    }
    proof {
        lemma_first_at_is(s@, c, from as int, n as int);
    }
    n
}

/// Does `s` start with `p`?
pub fn has_prefix(s: &str, p: &str) -> (r: bool)
    ensures
        r == (p@.len() <= s@.len() && s@.subrange(0, p@.len() as int) == p@),
{
    let np: usize = p.unicode_len();
    let ns: usize = s.unicode_len();
    if np > ns {
        return false;
    }
    let mut i: usize = 0;
    while i < np
        invariant
            0 <= i <= np,
            np == p@.len(),
            ns == s@.len(),
            np <= ns,
            forall|k: int| 0 <= k < i ==> s@[k] == p@[k],
        decreases np - i,
    {
        if s.get_char(i) != p.get_char(i) {
            proof {
                assert(s@.subrange(0, np as int)[i as int] != p@[i as int]);
            }
            return false;
        }
        i = i + 1;
    }
    proof {
        assert(s@.subrange(0, np as int) =~= p@);
    }
    true
}

/// The views of a sequence of strings.
pub open spec fn sviews(vs: Seq<String>) -> Seq<Seq<char>> {
    Seq::new(vs.len(), |i: int| vs[i]@)
}

/// Is `x` among the views in `ss`?
pub open spec fn has_str(ss: Seq<Seq<char>>, x: Seq<char>) -> bool {
    exists|i: int| 0 <= i < ss.len() && ss[i] == x
}

/// No two entries of `ss` are equal.
pub open spec fn distinct_strs(ss: Seq<Seq<char>>) -> bool {
    forall|i: int, j: int| 0 <= i < j < ss.len() ==> ss[i] != ss[j]
}

pub proof fn lemma_sviews_push(vs: Seq<String>, s: String)
    ensures
        sviews(vs.push(s)) == sviews(vs).push(s@),
{
    assert(sviews(vs.push(s)) =~= sviews(vs).push(s@));
}

pub proof fn lemma_has_str_push(ss: Seq<Seq<char>>, x: Seq<char>, y: Seq<char>)
    ensures
        has_str(ss.push(x), y) <==> (has_str(ss, y) || x == y),
{
    if has_str(ss.push(x), y) {
        let i = choose|i: int| 0 <= i < ss.push(x).len() && ss.push(x)[i] == y;
        if i < ss.len() {
            assert(ss[i] == y);
        } else {
            assert(x == y);
        }
    }
    if has_str(ss, y) {
        let i = choose|i: int| 0 <= i < ss.len() && ss[i] == y;
        assert(ss.push(x)[i] == y);
    }
    if x == y {
        assert(ss.push(x)[ss.len() as int] == y);
    }
}

/// Does `v` contain a string whose characters equal those of `x`?
pub fn contains_str(v: &Vec<String>, x: &str) -> (r: bool)
    ensures
        r == has_str(sviews(v@), x@),
{
    let n: usize = v.len();
    let mut i: usize = 0;
    while i < n
        invariant
            0 <= i <= n,
            n == v@.len(),
            forall|k: int| 0 <= k < i ==> sviews(v@)[k] != x@,
        decreases n - i,
    {
        if str_eq(v[i].as_str(), x) {
            proof {
                assert(sviews(v@)[i as int] == x@);
            }
            return true;
        }
        i = i + 1;
    }
    false
}

/// Are the entries of `v` pairwise distinct?
pub fn all_distinct(v: &Vec<String>) -> (r: bool)
    ensures
        r == distinct_strs(sviews(v@)),
{
    let n: usize = v.len();
    let mut i: usize = 1;
    while i < n
        invariant
            1 <= i <= n || n == 0,
            n == v@.len(),
            forall|a: int, b: int| 0 <= a < b < i ==> sviews(v@)[a] != sviews(v@)[b],
        decreases n - i,
    {
        let mut j: usize = 0;
        while j < i
            invariant
                0 <= j <= i < n,
                n == v@.len(),
                forall|k: int| 0 <= k < j ==> sviews(v@)[k] != sviews(v@)[i as int],
            decreases i - j,
        {
            if str_eq(v[j].as_str(), v[i].as_str()) {
                proof {
                    assert(sviews(v@)[j as int] == sviews(v@)[i as int]);
                }
                return false;
            }
            j = j + 1;
        }
        i = i + 1;
    }
    true
}

/// Character-for-character equality of two string slices.
pub fn str_eq(a: &str, b: &str) -> (r: bool)
    ensures
        r == (a@ == b@),
{
    let na: usize = a.unicode_len();
    let nb: usize = b.unicode_len();
    if na != nb {
        return false;
    }
    let mut i: usize = 0;
    while i < na
        invariant
            0 <= i <= na,
            na == a@.len(),
            nb == b@.len(),
            na == nb,
            forall|k: int| 0 <= k < i ==> a@[k] == b@[k],
        decreases na - i,
    {
        if a.get_char(i) != b.get_char(i) {
            return false;
        }
        i = i + 1;
    }
    proof {
        assert(a@ =~= b@);
    }
    true
}

} // verus!
