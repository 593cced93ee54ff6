//! Shell-style wildcard patterns over `/`-delimited keys: `*` within one
//! segment, `?` for one non-`/` character, `**` across segments.

use vstd::prelude::*;
use crate::text::{
    after_first_slash, chars_of, find_char, first_index_of, head_segment, lemma_first_index_bound,
    substring,
};

verus! {

/// Whether the pattern suffix `p[j..]` matches the candidate suffix `c[i..]`.
///
/// `**` matches any run of characters, `/` included; when it is followed by
/// `/` it may also match nothing together with that `/`, so that `a/**/b`
/// matches `a/b`. `*` matches any run without `/`. `?` matches one character
/// other than `/`. Every other character matches itself.
pub open spec fn match_from(c: Seq<char>, p: Seq<char>, i: int, j: int) -> bool
    decreases p.len() - j, c.len() - i,
{
    if j < 0 || i < 0 || j >= p.len() {
        i == c.len()
    } else if p[j] == '*' && j + 1 < p.len() && p[j + 1] == '*' {
        ||| match_from(c, p, i, j + 2)
        ||| (j + 2 < p.len() && p[j + 2] == '/' && match_from(c, p, i, j + 3))
        ||| (i < c.len() && match_from(c, p, i + 1, j))
    } else if p[j] == '*' {
        ||| match_from(c, p, i, j + 1)
        ||| (i < c.len() && c[i] != '/' && match_from(c, p, i + 1, j))
    } else if i >= c.len() {
        false
    } else if p[j] == '?' {
        c[i] != '/' && match_from(c, p, i + 1, j + 1)
    } else {
        c[i] == p[j] && match_from(c, p, i + 1, j + 1)
    }
}

/// Whether the whole candidate matches the whole pattern.
pub open spec fn glob_match(c: Seq<char>, p: Seq<char>) -> bool {
    match_from(c, p, 0, 0)
}

/// Whether `s` holds the recursive marker `**`.
pub open spec fn has_double_star(s: Seq<char>) -> bool {
    exists|i: int| 0 <= i && i + 1 < s.len() && s[i] == '*' && #[trigger] s[i + 1] == '*'
}

/// The number of pieces that splitting `s` on `/` gives (`"a/b/"` gives 3).
pub open spec fn segment_count(s: Seq<char>) -> nat
    decreases s.len(),
{
    if first_index_of(s, '/') < s.len() {
        1 + segment_count(after_first_slash(s))
    } else {
        1
    }
}

/// The pieces that splitting `s` on `/` gives, in order, empty ones included
/// (as `str::split('/')` gives them).
pub open spec fn split_on_slash(s: Seq<char>) -> Seq<Seq<char>>
    decreases s.len(),
{
    if first_index_of(s, '/') < s.len() {
        seq![head_segment(s)] + split_on_slash(after_first_slash(s))
    } else {
        seq![s]
    }
}

proof fn lemma_segment_count_pieces(s: Seq<char>)
    ensures
        segment_count(s) == split_on_slash(s).len(),
    decreases s.len(),
{
    if first_index_of(s, '/') < s.len() {
        lemma_segment_count_pieces(after_first_slash(s));
    }
}

/// The depth of a pattern without `**` is the number of pieces splitting it
/// on `/` gives; a pattern with `**` has no fixed depth.
pub proof fn lemma_pattern_depth_law(p: Seq<char>)
    ensures
        !has_double_star(p) ==> pattern_depth_spec(p) == Some(split_on_slash(p).len()),
        has_double_star(p) ==> pattern_depth_spec(p) is None,
{
    lemma_segment_count_pieces(p);
}

/// How many segments a pattern spans, or `None` when `**` makes it unbounded.
pub open spec fn pattern_depth_spec(p: Seq<char>) -> Option<nat> {
    if has_double_star(p) {
        None
    } else {
        Some(segment_count(p))
    }
}

pub open spec fn is_wildcard(c: char) -> bool {
    c == '*' || c == '?'
}

/// Index of the first wildcard character of `s`, or `s.len()` when there is none.
pub open spec fn first_wildcard(s: Seq<char>) -> nat
    decreases s.len(),
{
    if s.len() == 0 {
        0
    } else if is_wildcard(s[0]) {
        0
    } else {
        1 + first_wildcard(s.drop_first())
    }
}

/// Length of the part of `s` up to and including its last `/` (0 when it has none).
pub open spec fn through_last_slash(s: Seq<char>) -> nat
    decreases s.len(),
{
    if s.len() == 0 {
        0
    } else if s.last() == '/' {
        s.len()
    } else {
        through_last_slash(s.drop_last())
    }
}

/// Length of the literal prefix of a path whose first wildcard stands at
/// `first_wildcard(s)`: everything through the last `/` before it.
pub open spec fn literal_prefix_len(s: Seq<char>) -> nat {
    through_last_slash(s.take(first_wildcard(s) as int))
}

/// The split of a path at its first wildcard: (literal prefix, glob pattern),
/// or `None` when the path holds no wildcard.
pub open spec fn split_wildcard_spec(s: Seq<char>) -> Option<(Seq<char>, Seq<char>)> {
    if first_wildcard(s) >= s.len() {
        None
    } else {
        let k = literal_prefix_len(s) as int;
        Some((s.take(k), s.skip(k)))
    }
}

pub proof fn lemma_first_wildcard_at(s: Seq<char>, i: int)
    requires
        0 <= i <= s.len(),
        forall|j: int| 0 <= j < i ==> !is_wildcard(#[trigger] s[j]),
        i == s.len() || is_wildcard(s[i]),
    ensures
        first_wildcard(s) == i,
    decreases i,
{
    if i > 0 {
        assert forall|j: int| 0 <= j < i - 1 implies !is_wildcard(#[trigger] s.drop_first()[j]) by {
            assert(s.drop_first()[j] == s[j + 1]);
        }
        lemma_first_wildcard_at(s.drop_first(), i - 1);
    }
}

/// Whether `pattern` holds the recursive marker `**`.
pub fn contains_recursive_wildcard(pattern: &str) -> (r: bool)
    ensures
        r == has_double_star(pattern@),
{
    let cs = chars_of(pattern);
    let mut i: usize = 0;
    while i < cs.len()
        invariant
            cs@ == pattern@,
            i <= cs@.len(),
            forall|k: int| 0 <= k < i && k + 1 < cs@.len() ==> !(cs@[k] == '*' && #[trigger] cs@[k + 1] == '*'),
        decreases cs@.len() - i,
    {
        if i + 1 < cs.len() && cs[i] == '*' && cs[i + 1] == '*' {
            return true;
        }
        i = i + 1;
    }
    assert forall|k: int| 0 <= k && k + 1 < cs@.len() implies !(cs@[k] == '*' && #[trigger] cs@[k + 1] == '*') by {
        assert(k < i);
    }
    false
}

/// The number of `/`-delimited segments of `pattern`, or `None` when it holds
/// `**` and so spans any depth.
pub fn pattern_depth(pattern: &str) -> (r: Option<usize>)
    requires
        pattern@.len() < usize::MAX,
    ensures
        match r {
            Some(d) => pattern_depth_spec(pattern@) == Some(d as nat),
            None => pattern_depth_spec(pattern@) is None,
        },
{
    if contains_recursive_wildcard(pattern) {
        None
    } else {
        Some(count_segments(pattern))
    }
}

/// The number of `/`-delimited segments of `s` (one more than its `/` count).
pub fn count_segments(s: &str) -> (r: usize)
    requires
        s@.len() < usize::MAX,
    ensures
        r == segment_count(s@),
{
    let cs = chars_of(s);
    let n = cs.len();
    let mut pos: usize = 0;
    let mut count: usize = 1;
    assert(cs@.skip(0) =~= cs@);
    while pos < n
        invariant
            cs@ == s@,
            n == cs@.len(),
            n < usize::MAX,
            pos <= n,
            1 <= count <= pos + 1,
            count + segment_count(cs@.skip(pos as int)) == 1 + segment_count(cs@),
        decreases n - pos,
    {
        let q = find_char(&cs, pos, '/');
        proof {
            let t = cs@.skip(pos as int);
            lemma_first_index_bound(t, '/');
            if q < n {
                assert(after_first_slash(t) =~= cs@.skip(q + 1));
            }
        }
        if q == n {
            proof {
                assert(cs@.skip(n as int) =~= Seq::<char>::empty());
            }
            pos = n;
        } else {
            count = count + 1;
            pos = q + 1;
        }
    }
    proof {
        assert(segment_count(cs@.skip(n as int)) == 1);
    }
    count
}

/// The row of the match table for pattern position `m == p.len()`.
fn end_row(n: usize) -> (row: Vec<bool>)
    requires
        n < usize::MAX,
    ensures
        row@.len() == n + 1,
        forall|i: int| 0 <= i <= n ==> row@[i] == (i == n),
{
    let mut row: Vec<bool> = Vec::new();
    let mut i: usize = 0;
    while i <= n
        invariant
            n < usize::MAX,
            i <= n + 1,
            row@.len() == i,
            forall|k: int| 0 <= k < i ==> row@[k] == (k == n),
        decreases n + 1 - i,
    {
        row.push(i == n);
        i = i + 1;
    }
    row
}

/// The row of the match table for pattern position `j`, from the rows for
/// `j + 1`, `j + 2` and `j + 3` (the latter two consulted only where they exist).
fn match_row(c: &Vec<char>, p: &Vec<char>, j: usize, r1: &Vec<bool>, r2: &Vec<bool>, r3: &Vec<bool>) -> (row: Vec<bool>)
    requires
        j < p@.len(),
        c@.len() < usize::MAX,
        r1@.len() == c@.len() + 1,
        j + 2 <= p@.len() ==> r2@.len() == c@.len() + 1,
        j + 3 <= p@.len() ==> r3@.len() == c@.len() + 1,
        forall|i: int| 0 <= i <= c@.len() ==> r1@[i] == match_from(c@, p@, i, j + 1),
        j + 2 <= p@.len() ==> forall|i: int| 0 <= i <= c@.len() ==> r2@[i] == match_from(c@, p@, i, j + 2),
        j + 3 <= p@.len() ==> forall|i: int| 0 <= i <= c@.len() ==> r3@[i] == match_from(c@, p@, i, j + 3),
    ensures
        row@.len() == c@.len() + 1,
        forall|i: int| 0 <= i <= c@.len() ==> row@[i] == match_from(c@, p@, i, j as int),
{
    let n = c.len();
    let m = p.len();
    let mut row = end_row(n);
    let double = p[j] == '*' && j + 1 < m && p[j + 1] == '*';
    let mut k: usize = n + 1;
    while k > 0
        invariant
            n == c@.len(),
            m == p@.len(),
            j < m,
            n < usize::MAX,
            k <= n + 1,
            row@.len() == n + 1,
            double == (p@[j as int] == '*' && j + 1 < m && p@[j + 1] == '*'),
            r1@.len() == n + 1,
            j + 2 <= m ==> r2@.len() == n + 1,
            j + 3 <= m ==> r3@.len() == n + 1,
            forall|i: int| 0 <= i <= n ==> r1@[i] == match_from(c@, p@, i, j + 1),
            j + 2 <= m ==> forall|i: int| 0 <= i <= n ==> r2@[i] == match_from(c@, p@, i, j + 2),
            j + 3 <= m ==> forall|i: int| 0 <= i <= n ==> r3@[i] == match_from(c@, p@, i, j + 3),
            forall|i: int| k <= i <= n ==> row@[i] == match_from(c@, p@, i, j as int),
        decreases k,
    {
        let i = k - 1;
        let v = if double {
            r2[i] || (j + 2 < m && p[j + 2] == '/' && r3[i]) || (i < n && row[i + 1])
        } else if p[j] == '*' {
            r1[i] || (i < n && c[i] != '/' && row[i + 1])
        } else if i >= n {
            false
        } else if p[j] == '?' {
            c[i] != '/' && r1[i + 1]
        } else {
            c[i] == p[j] && r1[i + 1]
        };
        assert(v == match_from(c@, p@, i as int, j as int));
        row.set(i, v);
        k = i;
    }
    row
}

/// Whether `candidate` matches the wildcard `pattern` (see `match_from`).
pub fn matches_pattern(candidate: &str, pattern: &str) -> (r: bool)
    requires
        candidate@.len() < usize::MAX,
    ensures
        r == glob_match(candidate@, pattern@),
{
    let c = chars_of(candidate);
    let p = chars_of(pattern);
    let n = c.len();
    let m = p.len();
    let mut r1 = end_row(n);
    let mut r2 = end_row(n);
    let mut r3 = end_row(n);
    let mut j: usize = m;
    while j > 0
        invariant
            n == c@.len(),
            m == p@.len(),
            n < usize::MAX,
            j <= m,
            r1@.len() == n + 1,
            j + 1 <= m ==> r2@.len() == n + 1,
            j + 2 <= m ==> r3@.len() == n + 1,
            forall|i: int| 0 <= i <= n ==> r1@[i] == match_from(c@, p@, i, j as int),
            j + 1 <= m ==> forall|i: int| 0 <= i <= n ==> r2@[i] == match_from(c@, p@, i, j + 1),
            j + 2 <= m ==> forall|i: int| 0 <= i <= n ==> r3@[i] == match_from(c@, p@, i, j + 2),
        decreases j,
    {
        let row = match_row(&c, &p, j - 1, &r1, &r2, &r3);
        r3 = r2;
        r2 = r1;
        r1 = row;
        j = j - 1;
    }
    r1[0]
}

/// Splits `path` at its first wildcard (`*` or `?`) into the literal prefix
/// (everything through the last `/` before the wildcard) and the glob pattern
/// (everything after that). `None` when `path` holds no wildcard.
pub fn split_wildcard_path(path: &str) -> (r: Option<(String, String)>)
    ensures
        match r {
            Some((a, b)) => split_wildcard_spec(path@) == Some((a@, b@)) && a@.len() + b@.len()
                == path@.len(),
            None => split_wildcard_spec(path@) is None,
        },
{
    let cs = chars_of(path);
    let n = cs.len();
    let mut w: usize = 0;
    while w < n && !(cs[w] == '*' || cs[w] == '?')
        invariant
            cs@ == path@,
            n == cs@.len(),
            w <= n,
            forall|j: int| 0 <= j < w ==> !is_wildcard(#[trigger] cs@[j]),
        decreases n - w,
    {
        w = w + 1;
    }
    proof {
        lemma_first_wildcard_at(cs@, w as int);
    }
    if w == n {
        return None;
    }
    let ghost head = cs@.take(w as int);
    let mut k: usize = w;
    while k > 0 && cs[k - 1] != '/'
        invariant
            cs@ == path@,
            n == cs@.len(),
            k <= w < n,
            head == cs@.take(w as int),
            through_last_slash(head) == through_last_slash(cs@.take(k as int)),
        decreases k,
    {
        proof {
            assert(cs@.take(k as int).drop_last() =~= cs@.take(k - 1));
        }
        k = k - 1;
    }
    proof {
        if k > 0 {
            assert(cs@.take(k as int).last() == '/');
        }
    }
    let prefix = substring(path, 0, k);
    let pattern = substring(path, k, n);
    proof {
        assert(prefix@ =~= path@.take(k as int));
        assert(pattern@ =~= path@.skip(k as int));
    }
    Some((prefix, pattern))
}

} // verus!
