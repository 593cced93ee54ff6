//! Decimal numbers and `start-end` byte ranges.

use vstd::prelude::*;
use crate::text::{chars_of, find_char, first_index_of, lemma_first_index_bound, substring};

verus! {

pub open spec fn is_digit(c: char) -> bool {
    '0' <= c && c <= '9'
}

pub open spec fn digit_value(c: char) -> nat {
    (c as u32 - '0' as u32) as nat
}

/// The number that a run of decimal digits denotes.
pub open spec fn digits_value(s: Seq<char>) -> nat
    decreases s.len(),
{
    if s.len() == 0 {
        0
    } else {
        digits_value(s.drop_last()) * 10 + digit_value(s.last())
    }
}

pub open spec fn all_digits(d: Seq<char>) -> bool {
    forall|i: int| 0 <= i < d.len() ==> is_digit(#[trigger] d[i])
}

/// `s` without a leading `+`.
pub open spec fn unsigned_part(s: Seq<char>) -> Seq<char> {
    if s.len() > 0 && s[0] == '+' {
        s.skip(1)
    } else {
        s
    }
}

/// An optional `+` and then one or more decimal digits, denoting at most `u64::MAX`.
pub open spec fn parse_u64_spec(s: Seq<char>) -> Option<nat> {
    let d = unsigned_part(s);
    if d.len() > 0 && all_digits(d) && digits_value(d) <= u64::MAX {
        Some(digits_value(d))
    } else {
        None
    }
}

proof fn lemma_digits_grow(s: Seq<char>, i: int)
    requires
        0 <= i <= s.len(),
    ensures
        digits_value(s.take(i)) <= digits_value(s),
    decreases s.len() - i,
{
    if i < s.len() {
        lemma_digits_grow(s, i + 1);
        assert(s.take(i + 1).drop_last() =~= s.take(i));
    } else {
        assert(s.take(i) =~= s);
    }
}

/// Reads an unsigned decimal number as `u64::from_str` does: an optional `+`,
/// then digits only; `None` when empty, malformed or above `u64::MAX`.
pub fn parse_u64(s: &str) -> (r: Option<u64>)
    ensures
        match r {
            Some(v) => parse_u64_spec(s@) == Some(v as nat),
            None => parse_u64_spec(s@) is None,
        },
{
    let cs = chars_of(s);
    let n = cs.len();
    let start: usize = if n > 0 && cs[0] == '+' { 1 } else { 0 };
    let ghost d = unsigned_part(s@);
    assert(d =~= cs@.skip(start as int));
    if start == n {
        return None;
    }
    let mut v: u64 = 0;
    let mut i: usize = start;
    assert(d.take(0) =~= Seq::<char>::empty());
    while i < n
        invariant
            cs@ == s@,
            n == cs@.len(),
            start <= i <= n,
            d == cs@.skip(start as int),
            d == unsigned_part(s@),
            forall|j: int| start <= j < i ==> is_digit(#[trigger] cs@[j]),
            v as nat == digits_value(d.take(i - start)),
        decreases n - i,
    {
        let c = cs[i];
        if !('0' <= c && c <= '9') {
            proof {
                assert(0 <= i - start < d.len());
                assert(!is_digit(d[i - start]));
                assert(!all_digits(d));
                assert(parse_u64_spec(s@) is None);
            }
            return None;
        }
        let dig = (c as u32 - '0' as u32) as u64;
        assert(d.take(i - start + 1).drop_last() =~= d.take(i - start));
        assert(d.take(i - start + 1).last() == c);
        if v > (u64::MAX - dig) / 10 {
            proof {
                assert(v * 10 + dig > u64::MAX) by (nonlinear_arith)
                    requires
                        v > (u64::MAX - dig) / 10,
                        dig <= 9,
                ;
                lemma_digits_grow(d, i - start + 1);
                assert(digits_value(d.take(i - start + 1)) == v * 10 + dig);
                assert(parse_u64_spec(s@) is None);
            }
            return None;
        }
        proof {
            assert(v * 10 + dig <= u64::MAX) by (nonlinear_arith)
                requires
                    v <= (u64::MAX - dig) / 10,
                    dig <= 9,
            ;
        }
        v = v * 10 + dig;
        i = i + 1;
    }
    proof {
        assert(d.take(n - start) =~= d);
        assert forall|j: int| 0 <= j < d.len() implies is_digit(#[trigger] d[j]) by {
            assert(d[j] == cs@[j + start]);
        }
        assert(all_digits(d));
    }
    Some(v)
}

/// Why a byte range was refused.
#[derive(Debug, PartialEq, Eq, Structural, Clone, Copy)]
pub enum RangeError {
    /// `-N` (the last N bytes) is not supported.
    Negative,
    /// Not of the form `start-end` or `start-`.
    Format,
    /// The start offset is not a number.
    Start,
    /// The end offset is not a number.
    End,
}

/// The number of `c` in `s`.
pub open spec fn count_char(s: Seq<char>, c: char) -> nat
    decreases s.len(),
{
    if s.len() == 0 {
        0
    } else {
        count_char(s.drop_last(), c) + if s.last() == c { 1nat } else { 0 }
    }
}

/// A range `start-end` or `start-` as (start, optional end); `-N` and
/// anything without exactly one `-` are refused, as are offsets that are not
/// numbers.
pub open spec fn parse_range_spec(s: Seq<char>) -> Result<(nat, Option<nat>), RangeError> {
    if s.len() > 0 && s[0] == '-' {
        Err(RangeError::Negative)
    } else if count_char(s, '-') != 1 {
        Err(RangeError::Format)
    } else {
        let k = first_index_of(s, '-') as int;
        let a = s.take(k);
        let b = s.skip(k + 1);
        match parse_u64_spec(a) {
            None => Err(RangeError::Start),
            Some(start) => if b.len() == 0 {
                Ok((start, None))
            } else {
                match parse_u64_spec(b) {
                    None => Err(RangeError::End),
                    Some(end) => Ok((start, Some(end))),
                }
            },
        }
    }
}

pub open spec fn range_view(r: (u64, Option<u64>)) -> (nat, Option<nat>) {
    (
        r.0 as nat,
        match r.1 {
            Some(e) => Some(e as nat),
            None => None,
        },
    )
}

proof fn lemma_count_prefix_step(s: Seq<char>, i: int, c: char)
    requires
        0 <= i < s.len(),
    ensures
        count_char(s.take(i + 1), c) == count_char(s.take(i), c) + if s[i] == c { 1nat } else { 0 },
{
    assert(s.take(i + 1).drop_last() =~= s.take(i));
}

/// Parses a byte range `start-end` or `start-` into (start, end).
pub fn parse_range(range: &str) -> (r: Result<Option<(u64, Option<u64>)>, RangeError>)
    ensures
        match r {
            Ok(Some(p)) => parse_range_spec(range@) == Ok::<(nat, Option<nat>), RangeError>(range_view(p)),
            Ok(None) => false,
            Err(e) => parse_range_spec(range@) == Err::<(nat, Option<nat>), RangeError>(e),
        },
{
    let cs = chars_of(range);
    let n = cs.len();
    if n > 0 && cs[0] == '-' {
        return Err(RangeError::Negative);
    }
    let mut dashes: usize = 0;
    let mut i: usize = 0;
    assert(cs@.take(0) =~= Seq::<char>::empty());
    while i < n
        invariant
            cs@ == range@,
            n == cs@.len(),
            i <= n,
            dashes <= i,
            dashes as nat == count_char(cs@.take(i as int), '-'),
        decreases n - i,
    {
        proof {
            lemma_count_prefix_step(cs@, i as int, '-');
        }
        if cs[i] == '-' {
            dashes = dashes + 1;
        }
        i = i + 1;
    }
    assert(cs@.take(n as int) =~= cs@);
    if dashes != 1 {
        return Err(RangeError::Format);
    }
    let k = find_char(&cs, 0, '-');
    proof {
        assert(cs@.skip(0) =~= cs@);
        lemma_first_index_bound(cs@, '-');
        if k == n {
            lemma_no_char_count(cs@, '-');
        }
    }
    let a = substring(range, 0, k);
    let b = substring(range, k + 1, n);
    assert(a@ =~= range@.take(k as int));
    assert(b@ =~= range@.skip(k + 1));
    let start = match parse_u64(a.as_str()) {
        Some(v) => v,
        None => return Err(RangeError::Start),
    };
    if b.unicode_len() == 0 {
        return Ok(Some((start, None)));
    }
    match parse_u64(b.as_str()) {
        Some(e) => Ok(Some((start, Some(e)))),
        None => Err(RangeError::End),
    }
}

proof fn lemma_no_char_count(s: Seq<char>, c: char)
    requires
        first_index_of(s, c) == s.len(),
    ensures
        count_char(s, c) == 0,
    decreases s.len(),
{
    lemma_first_index_bound(s, c);
    if s.len() > 0 {
        assert forall|j: int| 0 <= j < s.len() - 1 implies s.drop_last()[j] != c by {
            assert(s.drop_last()[j] == s[j]);
        }
        crate::text::lemma_first_index_at(s.drop_last(), c, s.len() - 1);
        lemma_no_char_count(s.drop_last(), c);
    }
}

} // verus!
