//! Human-readable byte counts and decimal rendering of integers.

use vstd::prelude::*;
use crate::ranges::{parse_u64, parse_u64_spec};

verus! {

pub open spec fn digit_char(d: nat) -> char {
    if d == 0 {
        '0'
    } else if d == 1 {
        '1'
    } else if d == 2 {
        '2'
    } else if d == 3 {
        '3'
    } else if d == 4 {
        '4'
    } else if d == 5 {
        '5'
    } else if d == 6 {
        '6'
    } else if d == 7 {
        '7'
    } else if d == 8 {
        '8'
    } else {
        '9'
    }
}

/// The decimal digits of `n`, most significant first, without leading zeros.
pub open spec fn decimal(n: nat) -> Seq<char>
    decreases n,
{
    if n < 10 {
        seq![digit_char(n)]
    } else {
        decimal(n / 10).push(digit_char(n % 10))
    }
}

/// Bytes in one unit of rank `k`: B, KB, MB, GB, TB.
pub open spec fn unit_bytes(k: nat) -> nat {
    if k == 0 {
        1
    } else if k == 1 {
        1024
    } else if k == 2 {
        1048576
    } else if k == 3 {
        1073741824
    } else {
        1099511627776
    }
}

pub open spec fn unit_name(k: nat) -> Seq<char> {
    if k == 0 {
        seq!['B']
    } else if k == 1 {
        seq!['K', 'B']
    } else if k == 2 {
        seq!['M', 'B']
    } else if k == 3 {
        seq!['G', 'B']
    } else {
        seq!['T', 'B']
    }
}

/// The largest unit, up to TB, that `size` reaches.
pub open spec fn unit_rank(size: nat) -> nat {
    if size < 1024 {
        0
    } else if size < 1048576 {
        1
    } else if size < 1073741824 {
        2
    } else if size < 1099511627776 {
        3
    } else {
        4
    }
}

/// `size` in units of rank `k`, in tenths, rounded to the nearest, a tie
/// (such as 1280 bytes, exactly 1.25 KB) going to the even neighbour as
/// floating-point formatting does.
pub open spec fn rounded_tenths(size: nat, k: nat) -> nat {
    let q = size * 10 / unit_bytes(k);
    let r = size * 10 % unit_bytes(k);
    if 2 * r > unit_bytes(k) || (2 * r == unit_bytes(k) && q % 2 == 1) {
        q + 1
    } else {
        q
    }
}

/// Bytes below 1 KB as `"<n> B"`; larger sizes in the largest unit reached,
/// to one decimal: `"1.5 KB"`.
pub open spec fn format_size_spec(size: nat) -> Seq<char> {
    let k = unit_rank(size);
    if k == 0 {
        decimal(size) + seq![' ', 'B']
    } else {
        let t = rounded_tenths(size, k);
        decimal(t / 10) + seq!['.'] + decimal(t % 10) + seq![' '] + unit_name(k)
    }
}

fn digit_str(d: u128) -> (r: &'static str)
    requires
        d < 10,
    ensures
        r@ == seq![digit_char(d as nat)],
{
    proof {
        reveal_strlit("0");
        reveal_strlit("1");
        reveal_strlit("2");
        reveal_strlit("3");
        reveal_strlit("4");
        reveal_strlit("5");
        reveal_strlit("6");
        reveal_strlit("7");
        reveal_strlit("8");
        reveal_strlit("9");
    }
    if d == 0 {
        "0"
    } else if d == 1 {
        "1"
    } else if d == 2 {
        "2"
    } else if d == 3 {
        "3"
    } else if d == 4 {
        "4"
    } else if d == 5 {
        "5"
    } else if d == 6 {
        "6"
    } else if d == 7 {
        "7"
    } else if d == 8 {
        "8"
    } else {
        "9"
    }
}

/// The decimal rendering of `n`.
pub fn decimal_string(n: u128) -> (r: String)
    ensures
        r@ == decimal(n as nat),
    decreases n,
{
    if n < 10 {
        String::from_str(digit_str(n))
    } else {
        let mut s = decimal_string(n / 10);
        s.append(digit_str(n % 10));
        proof {
            assert(s@ =~= decimal((n / 10) as nat).push(digit_char((n % 10) as nat)));
        }
        s
    }
}

fn unit_label(k: u128) -> (r: &'static str)
    requires
        1 <= k <= 4,
    ensures
        r@ == unit_name(k as nat),
{
    proof {
        reveal_strlit("KB");
        reveal_strlit("MB");
        reveal_strlit("GB");
        reveal_strlit("TB");
    }
    if k == 1 {
        "KB"
    } else if k == 2 {
        "MB"
    } else if k == 3 {
        "GB"
    } else {
        "TB"
    }
}

/// Renders a byte count for people: `512 B`, `1.5 KB`, `1.0 TB`.
pub fn format_size(size: u64) -> (r: String)
    ensures
        r@ == format_size_spec(size as nat),
{
    let s = size as u128;
    let (k, unit): (u128, u128) = if s < 1024 {
        (0, 1)
    } else if s < 1048576 {
        (1, 1024)
    } else if s < 1073741824 {
        (2, 1048576)
    } else if s < 1099511627776 {
        (3, 1073741824)
    } else {
        (4, 1099511627776)
    };
    assert(k == unit_rank(size as nat) && unit == unit_bytes(k as nat));
    proof {
        reveal_strlit(" B");
        reveal_strlit(".");
        reveal_strlit(" ");
    }
    if k == 0 {
        let mut r = decimal_string(s);
        r.append(" B");
        r
    } else {
        let q = s * 10 / unit;
        let rem = s * 10 % unit;
        let t = if 2 * rem > unit || (2 * rem == unit && q % 2 == 1) {
            q + 1
        } else {
            q
        };
        let mut r = decimal_string(t / 10);
        r.append(".");
        r.append(digit_str(t % 10));
        r.append(" ");
        r.append(unit_label(k));
        proof {
            assert(decimal((t % 10) as nat) == seq![digit_char((t % 10) as nat)]);
        }
        r
    }
}

/// `size` in units of rank `k`, in hundredths, rounded to the nearest, a tie
/// going to the even neighbour.
pub open spec fn rounded_hundredths(size: nat, k: nat) -> nat {
    let q = size * 100 / unit_bytes(k);
    let r = size * 100 % unit_bytes(k);
    if 2 * r > unit_bytes(k) || (2 * r == unit_bytes(k) && q % 2 == 1) {
        q + 1
    } else {
        q
    }
}

/// A byte count given as text, in the largest unit reached, to two decimals
/// (`"1.50 KB"`); text that is not a byte count is kept as it is.
pub open spec fn format_bytes_spec(s: Seq<char>) -> Seq<char> {
    match parse_u64_spec(s) {
        None => s,
        Some(size) => {
            let k = unit_rank(size);
            let h = rounded_hundredths(size, k);
            decimal(h / 100) + seq!['.', digit_char((h / 10) % 10), digit_char(h % 10), ' '] + unit_name(k)
        },
    }
}

/// Renders a byte count given as text with two decimals in the largest unit
/// reached; anything that is not a byte count comes back unchanged.
pub fn format_bytes(bytes_str: &str) -> (r: String)
    ensures
        r@ == format_bytes_spec(bytes_str@),
{
    let size = match parse_u64(bytes_str) {
        Some(v) => v as u128,
        None => return String::from_str(bytes_str),
    };
    let (k, unit): (u128, u128) = if size < 1024 {
        (0, 1)
    } else if size < 1048576 {
        (1, 1024)
    } else if size < 1073741824 {
        (2, 1048576)
    } else if size < 1099511627776 {
        (3, 1073741824)
    } else {
        (4, 1099511627776)
    };
    assert(k == unit_rank(size as nat) && unit == unit_bytes(k as nat));
    let q = size * 100 / unit;
    let rem = size * 100 % unit;
    let h = if 2 * rem > unit || (2 * rem == unit && q % 2 == 1) {
        q + 1
    } else {
        q
    };
    proof {
        reveal_strlit(".");
        reveal_strlit(" ");
        reveal_strlit("B");
    }
    let mut r = decimal_string(h / 100);
    r.append(".");
    r.append(digit_str((h / 10) % 10));
    r.append(digit_str(h % 10));
    r.append(" ");
    if k == 0 {
        r.append("B");
    } else {
        r.append(unit_label(k));
    }
    proof {
        assert(r@ =~= decimal((h / 100) as nat) + seq!['.', digit_char(((h / 10) % 10) as nat), digit_char((h % 10) as nat), ' '] + unit_name(k as nat));
    }
    r
}

} // verus!
