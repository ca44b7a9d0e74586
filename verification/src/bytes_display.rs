//! Human-readable byte counts: `"1.50MB"`, `"317B"`, built from verified
//! integer arithmetic (two decimal digits, rounded to nearest).

use vstd::prelude::*;

verus! {

pub const KIB: u64 = 1024;

pub const MIB: u64 = 1024 * 1024;

pub const GIB: u64 = 1024 * 1024 * 1024;

/// The decimal digit character for `d` in `0 ..= 9`.
pub open spec fn spec_digit_char(d: int) -> char {
    if d == 0 {
        '0'
    } else if d == 1 {
        '1'
    } else if d == 2 {
        '2'
    } else if d == 3 {
        '3'
    } else if d == 4 {
        '4'
    } else if d == 5 {
        '5'
    } else if d == 6 {
        '6'
    } else if d == 7 {
        '7'
    } else if d == 8 {
        '8'
    } else {
        '9'
    }
}

/// The decimal digit string of a nonnegative number, most significant digit
/// first, without leading zeros (a lone zero for zero).
pub open spec fn spec_decimal(n: int) -> Seq<char>
    decreases n,
{
    if n < 10 {
        seq![spec_digit_char(n)]
    } else {
        spec_decimal(n / 10).push(spec_digit_char(n % 10))
    }
}

/// `bytes` scaled by `unit`, with two decimal digits rounded to nearest
/// (a remainder of exactly half a digit rounds up), followed by `suffix`.
/// A fraction that rounds to a whole unit carries into the integer part.
pub open spec fn spec_scaled(bytes: u64, unit: u64, suffix: Seq<char>) -> Seq<char> {
    let frac = ((bytes as int % unit as int) * 200 / unit as int + 1) / 2;
    let whole = bytes as int / unit as int + (if frac == 100 {
        1int
    } else {
        0int
    });
    let frac2 = if frac == 100 {
        0int
    } else {
        frac
    };
    spec_decimal(whole) + seq!['.'] + seq![
        spec_digit_char(frac2 / 10),
        spec_digit_char(frac2 % 10),
    ] + suffix
}

/// What `bytes_display` returns: gigabytes, megabytes or kilobytes with two
/// decimals when the count exceeds the unit, else the plain byte count.
pub open spec fn spec_bytes_display(bytes: u64) -> Seq<char> {
    if bytes > GIB {
        spec_scaled(bytes, GIB, seq!['G', 'B'])
    } else if bytes > MIB {
        spec_scaled(bytes, MIB, seq!['M', 'B'])
    } else if bytes > KIB {
        spec_scaled(bytes, KIB, seq!['K', 'B'])
    } else {
        spec_decimal(bytes as int) + seq!['B']
    }
}

/// One decimal digit as a string slice.
fn digit_str(d: u64) -> (s: &'static str)
    requires
        d < 10,
    ensures
        s@ == seq![spec_digit_char(d as int)],
{
    proof {
        reveal_strlit("0");
        reveal_strlit("1");
        reveal_strlit("2");
        reveal_strlit("3");
        reveal_strlit("4");
        reveal_strlit("5");
        reveal_strlit("6");
        reveal_strlit("7");
        reveal_strlit("8");
        reveal_strlit("9");
    }
    let s = match d {
        0 => "0",
        1 => "1",
        2 => "2",
        3 => "3",
        4 => "4",
        5 => "5",
        6 => "6",
        7 => "7",
        8 => "8",
        _ => "9",
    };
    proof {
        assert(s@ =~= seq![spec_digit_char(d as int)]);
    }
    s
}

/// The decimal digit string of `n`.
fn u64_to_decimal(n: u64) -> (s: String)
    ensures
        s@ == spec_decimal(n as int),
    decreases n,
{
    if n < 10 {
        digit_str(n).to_owned()
    } else {
        let mut s = u64_to_decimal(n / 10);
        s.append(digit_str(n % 10));
        proof {
            assert(s@ =~= spec_decimal(n as int));
        }
        s
    }
}

/// `bytes` scaled by `unit` with two rounded decimals and `suffix`.
fn scaled_display(bytes: u64, unit: u64, suffix: &str) -> (s: String)
    requires
        KIB <= unit <= GIB,
    ensures
        s@ == spec_scaled(bytes, unit, suffix@),
{
    let whole0 = bytes / unit;
    let rem = bytes % unit;
    let frac = (rem * 200 / unit + 1) / 2;
    proof {
        assert(frac <= 100) by (nonlinear_arith)
            requires
                0 < (unit as int),
                (frac as int) == ((rem as int) * 200 / (unit as int) + 1) / 2,
                (rem as int) < (unit as int),
        ;
        // rounding the fraction up can carry, but the integer part cannot
        // overflow: the unit divides the count down by at least 1024
        assert((whole0 as int) * 1024 <= bytes as int) by (nonlinear_arith)
            requires
                (whole0 as int) == (bytes as int) / (unit as int),
                1024 <= (unit as int),
                0 <= (bytes as int),
        ;
    }
    let mut whole = whole0;
    let mut frac2 = frac;
    if frac == 100 {
        whole = whole0 + 1;
        frac2 = 0;
    }
    let mut s = u64_to_decimal(whole);
    proof {
        reveal_strlit(".");
        assert("."@ =~= seq!['.']);
    }
    s.append(".");
    s.append(digit_str(frac2 / 10));
    s.append(digit_str(frac2 % 10));
    s.append(suffix);
    proof {
        assert(s@ =~= spec_scaled(bytes, unit, suffix@));
    }
    s
}

/// Renders a byte count for labels and tooltips: `"2.00GB"`, `"36.55KB"`,
/// `"512B"`. Unit thresholds are strict, and the two decimal digits are
/// rounded to nearest, half a digit rounding up.
pub fn bytes_display(bytes: u64) -> (s: String)
    ensures
        s@ == spec_bytes_display(bytes),
{
    proof {
        reveal_strlit("GB");
        reveal_strlit("MB");
        reveal_strlit("KB");
        reveal_strlit("B");
        assert("GB"@ =~= seq!['G', 'B']);
        assert("MB"@ =~= seq!['M', 'B']);
        assert("KB"@ =~= seq!['K', 'B']);
        assert("B"@ =~= seq!['B']);
    }
    if bytes > GIB {
        scaled_display(bytes, GIB, "GB")
    } else if bytes > MIB {
        scaled_display(bytes, MIB, "MB")
    } else if bytes > KIB {
        scaled_display(bytes, KIB, "KB")
    } else {
        let mut s = u64_to_decimal(bytes);
        s.append("B");
        proof {
            assert(s@ =~= spec_bytes_display(bytes));
        }
        s
    }
}

} // verus!
