//! Reading what the transfer tool prints about itself.

use vstd::prelude::*;
use crate::ranges::{parse_u64, parse_u64_spec};
use crate::text::{
    chars_of, find_char, first_index_of, has_prefix, lemma_first_index_bound, starts_with, substring,
};

verus! {

/// The characters with the Unicode `White_Space` property, as
/// `char::is_whitespace` classifies them.
pub open spec fn is_white_space(c: char) -> bool {
    let u = c as u32;
    (0x9 <= u && u <= 0xD) || u == 0x20 || u == 0x85 || u == 0xA0 || u == 0x1680 || (0x2000 <= u && u
        <= 0x200A) || u == 0x2028 || u == 0x2029 || u == 0x202F || u == 0x205F || u == 0x3000
}

fn white_space(c: char) -> (r: bool)
    ensures
        r == is_white_space(c),
{
    let u = c as u32;
    (0x9 <= u && u <= 0xD) || u == 0x20 || u == 0x85 || u == 0xA0 || u == 0x1680 || (0x2000 <= u && u
        <= 0x200A) || u == 0x2028 || u == 0x2029 || u == 0x202F || u == 0x205F || u == 0x3000
}

/// The first line of `s` without its line ending (`\n` or `\r\n`); `None` for empty text.
pub open spec fn first_line(s: Seq<char>) -> Option<Seq<char>> {
    if s.len() == 0 {
        None
    } else {
        let e = first_index_of(s, '\n');
        let l = s.take(e as int);
        if e < s.len() && l.len() > 0 && l.last() == '\r' {
            Some(l.drop_last())
        } else {
            Some(l)
        }
    }
}

/// How many white-space characters `s` starts with.
pub open spec fn leading_space(s: Seq<char>) -> nat
    decreases s.len(),
{
    if s.len() > 0 && is_white_space(s[0]) {
        1 + leading_space(s.drop_first())
    } else {
        0
    }
}

/// How many non-white-space characters `s` starts with.
pub open spec fn word_len(s: Seq<char>) -> nat
    decreases s.len(),
{
    if s.len() > 0 && !is_white_space(s[0]) {
        1 + word_len(s.drop_first())
    } else {
        0
    }
}

/// The `k`-th (from 0) white-space-separated word of `s`.
pub open spec fn nth_word(s: Seq<char>, k: nat) -> Option<Seq<char>>
    decreases k,
{
    let t = s.skip(leading_space(s) as int);
    if t.len() == 0 {
        None
    } else if k == 0 {
        Some(t.take(word_len(t) as int))
    } else {
        nth_word(t.skip(word_len(t) as int), (k - 1) as nat)
    }
}

/// The third word of the first line: `"azcopy version 10.30.1"` gives `10.30.1`.
pub open spec fn tool_version_spec(s: Seq<char>) -> Option<Seq<char>> {
    match first_line(s) {
        None => None,
        Some(l) => nth_word(l, 2),
    }
}

proof fn lemma_leading_space_at(s: Seq<char>, i: int)
    requires
        0 <= i <= s.len(),
        forall|j: int| 0 <= j < i ==> is_white_space(#[trigger] s[j]),
        i == s.len() || !is_white_space(s[i]),
    ensures
        leading_space(s) == i,
    decreases i,
{
    if i > 0 {
        assert forall|j: int| 0 <= j < i - 1 implies is_white_space(#[trigger] s.drop_first()[j]) by {
            assert(s.drop_first()[j] == s[j + 1]);
        }
        lemma_leading_space_at(s.drop_first(), i - 1);
    }
}

proof fn lemma_word_len_at(s: Seq<char>, i: int)
    requires
        0 <= i <= s.len(),
        forall|j: int| 0 <= j < i ==> !is_white_space(#[trigger] s[j]),
        i == s.len() || is_white_space(s[i]),
    ensures
        word_len(s) == i,
    decreases i,
{
    if i > 0 {
        assert forall|j: int| 0 <= j < i - 1 implies !is_white_space(#[trigger] s.drop_first()[j]) by {
            assert(s.drop_first()[j] == s[j + 1]);
        }
        lemma_word_len_at(s.drop_first(), i - 1);
    }
}

/// Position of the first character at or after `from` (before `to`) that is
/// white space exactly when `space` is false.
fn scan(cs: &Vec<char>, from: usize, to: usize, space: bool) -> (r: usize)
    requires
        from <= to <= cs@.len(),
    ensures
        from <= r <= to,
        r < to ==> is_white_space(cs@[r as int]) != space,
        space ==> r == from + leading_space(cs@.subrange(from as int, to as int)),
        !space ==> r == from + word_len(cs@.subrange(from as int, to as int)),
{
    let mut i: usize = from;
    while i < to && white_space(cs[i]) == space
        invariant
            from <= i <= to <= cs@.len(),
            forall|j: int| from <= j < i ==> is_white_space(#[trigger] cs@[j]) == space,
        decreases to - i,
    {
        i = i + 1;
    }
    proof {
        let t = cs@.subrange(from as int, to as int);
        if space {
            assert forall|j: int| 0 <= j < i - from implies is_white_space(#[trigger] t[j]) by {
                assert(t[j] == cs@[j + from]);
            }
            lemma_leading_space_at(t, i - from);
        } else {
            assert forall|j: int| 0 <= j < i - from implies !is_white_space(#[trigger] t[j]) by {
                assert(t[j] == cs@[j + from]);
            }
            lemma_word_len_at(t, i - from);
        }
    }
    i
}

/// The version the transfer tool reports: the third word of the first line
/// of its `--version` output.
pub fn parse_azcopy_version(version_output: &str) -> (r: Option<String>)
    ensures
        match r {
            Some(v) => tool_version_spec(version_output@) == Some(v@),
            None => tool_version_spec(version_output@) is None,
        },
{
    let cs = chars_of(version_output);
    let n = cs.len();
    if n == 0 {
        return None;
    }
    let e = find_char(&cs, 0, '\n');
    proof {
        assert(cs@.skip(0) =~= cs@);
        lemma_first_index_bound(cs@, '\n');
    }
    let end = if e < n && e > 0 && cs[e - 1] == '\r' { e - 1 } else { e };
    let ghost line = cs@.subrange(0, end as int);
    assert(first_line(version_output@) == Some(line)) by {
        let l = cs@.take(e as int);
        if e < n && e > 0 && cs@[e - 1] == '\r' {
            assert(l.drop_last() =~= line);
        } else {
            assert(l =~= line);
        }
    }
    let mut pos: usize = 0;
    let mut k: usize = 0;
    assert(line.skip(0) =~= line);
    loop
        invariant
            cs@ == version_output@,
            end <= cs@.len(),
            line == cs@.subrange(0, end as int),
            first_line(version_output@) == Some(line),
            pos <= end,
            k <= 2,
            nth_word(line, 2) == nth_word(line.skip(pos as int), (2 - k) as nat),
        decreases end - pos,
    {
        let ghost rest = line.skip(pos as int);
        let start = scan(&cs, pos, end, true);
        proof {
            assert(cs@.subrange(pos as int, end as int) =~= rest);
        }
        if start == end {
            proof {
                assert(rest.skip(leading_space(rest) as int).len() == 0);
            }
            return None;
        }
        let stop = scan(&cs, start, end, false);
        proof {
            let t = rest.skip(leading_space(rest) as int);
            assert(cs@.subrange(start as int, end as int) =~= t);
            assert(t.len() > 0);
            assert(t[0] == cs@[start as int]);
            assert(!is_white_space(t[0]));
            assert(word_len(t) >= 1);
            assert(t.skip(word_len(t) as int) =~= line.skip(stop as int));
        }
        if k == 2 {
            let w = substring(version_output, start, stop);
            proof {
                let t = rest.skip(leading_space(rest) as int);
                assert(w@ =~= t.take(word_len(t) as int));
            }
            return Some(w);
        }
        k = k + 1;
        pos = stop;
    }
}

/// A job status that ends the job: `Completed` or `CompletedWithErrors`.
pub open spec fn job_complete_spec(status: Seq<char>) -> bool {
    status == "Completed"@ || status == "CompletedWithErrors"@
}

/// Whether a progress report's job status says the job has ended.
pub fn is_job_complete(status: &str) -> (r: bool)
    ensures
        r == job_complete_spec(status@),
{
    let s = String::from_str(status);
    s == String::from_str("Completed") || s == String::from_str("CompletedWithErrors")
}

/// A count of failed transfers as the tool reports it: a `u32` in decimal,
/// with anything else counting as none.
pub open spec fn failed_count_spec(text: Seq<char>) -> nat {
    match parse_u64_spec(text) {
        Some(v) => if v <= u32::MAX {
            v
        } else {
            0
        },
        None => 0,
    }
}

/// Reads a reported count of failed transfers; text that is not a `u32`
/// counts as zero.
pub fn failed_transfer_count(text: &str) -> (r: u32)
    ensures
        r as nat == failed_count_spec(text@),
{
    match parse_u64(text) {
        Some(v) => if v <= u32::MAX as u64 {
            v as u32
        } else {
            0
        },
        None => 0,
    }
}

/// How many white-space characters `s` ends with.
pub open spec fn trailing_space(s: Seq<char>) -> nat
    decreases s.len(),
{
    if s.len() > 0 && is_white_space(s.last()) {
        1 + trailing_space(s.drop_last())
    } else {
        0
    }
}

/// `s` without leading and trailing white space.
pub open spec fn trimmed(s: Seq<char>) -> Seq<char> {
    let t = s.skip(leading_space(s) as int);
    t.take(t.len() - trailing_space(t))
}

/// The text of an informational message: trimmed, without an `INFO: ` tag.
pub open spec fn info_text_spec(s: Seq<char>) -> Seq<char> {
    let t = trimmed(s);
    if starts_with(t, "INFO: "@) {
        t.skip(6)
    } else {
        t
    }
}

proof fn lemma_trailing_space_at(s: Seq<char>, i: int)
    requires
        0 <= i <= s.len(),
        forall|j: int| i <= j < s.len() ==> is_white_space(#[trigger] s[j]),
        i == 0 || !is_white_space(s[i - 1]),
    ensures
        trailing_space(s) == s.len() - i,
    decreases s.len() - i,
{
    if i < s.len() {
        assert forall|j: int| i <= j < s.len() - 1 implies is_white_space(#[trigger] s.drop_last()[j]) by {
            assert(s.drop_last()[j] == s[j]);
        }
        lemma_trailing_space_at(s.drop_last(), i);
    }
}

/// The text of an informational message, trimmed and without its `INFO: ` tag.
pub fn info_text(content: &str) -> (r: String)
    ensures
        r@ == info_text_spec(content@),
{
    let cs = chars_of(content);
    let n = cs.len();
    let a = scan(&cs, 0, n, true);
    assert(cs@.subrange(0, n as int) =~= content@);
    let ghost t = content@.skip(a as int);
    let mut b: usize = n;
    while b > a && white_space(cs[b - 1])
        invariant
            cs@ == content@,
            n == cs@.len(),
            a <= b <= n,
            forall|j: int| b <= j < n ==> is_white_space(#[trigger] cs@[j]),
        decreases b,
    {
        b = b - 1;
    }
    proof {
        assert forall|j: int| b - a <= j < t.len() implies is_white_space(#[trigger] t[j]) by {
            assert(t[j] == cs@[j + a]);
        }
        if b > a {
            assert(t[b - a - 1] == cs@[b - 1]);
        }
        lemma_trailing_space_at(t, b - a);
        assert(trimmed(content@) =~= content@.subrange(a as int, b as int));
    }
    let tc = substring(content, a, b);
    let tv = chars_of(tc.as_str());
    let tag = chars_of("INFO: ");
    proof {
        reveal_strlit("INFO: ");
    }
    if has_prefix(&tv, &tag) {
        substring(tc.as_str(), 6, tv.len())
    } else {
        tc
    }
}

} // verus!
