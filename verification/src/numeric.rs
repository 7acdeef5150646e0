//! Decimal rendering of vote counts and percentages.
//!
//! Vote counts are printed with their digits grouped in threes, separated by
//! single spaces (`1234567` becomes `1 234 567`). Percentages are carried
//! around as integer hundredths of a percent and printed with exactly two
//! digits after the decimal point (`1250` becomes `12.50%`).

use vstd::prelude::*;
use vstd::string::StrSliceExecFns;
use vstd::string::StringExecFns;

verus! {

/// The character for a single decimal digit value.
pub open spec fn digit_char(d: int) -> char {
    if d == 0 {
        '0'
    } else if d == 1 {
        '1'
    } else if d == 2 {
        '2'
    } else if d == 3 {
        '3'
    } else if d == 4 {
        '4'
    } else if d == 5 {
        '5'
    } else if d == 6 {
        '6'
    } else if d == 7 {
        '7'
    } else if d == 8 {
        '8'
    } else {
        '9'
    }
}

/// The decimal digits of `n`, most significant first, with no grouping.
pub open spec fn dec_digits(n: int) -> Seq<char>
    decreases n,
{
    if n < 10 {
        seq![digit_char(n)]
    } else {
        dec_digits(n / 10).push(digit_char(n % 10))
    }
}

/// The last three decimal digits of `n`, zero-padded to width three.
pub open spec fn dec3(n: int) -> Seq<char> {
    seq![digit_char((n / 100) % 10), digit_char((n / 10) % 10), digit_char(n % 10)]
}

/// The decimal digits of `n` grouped in threes, separated by single spaces.
pub open spec fn format_num_spec(n: int) -> Seq<char>
    decreases n,
{
    if n < 1000 {
        dec_digits(n)
    } else {
        format_num_spec(n / 1000).push(' ') + dec3(n % 1000)
    }
}

/// A percentage held as hundredths of a percent, rendered with two decimal
/// places and a trailing percent sign.
pub open spec fn percent_string_spec(p: int) -> Seq<char> {
    dec_digits(p / 100) + seq!['.', digit_char((p / 10) % 10), digit_char(p % 10), '%']
}

/// `part` as a share of `whole`, in hundredths of a percent, rounded to the
/// nearest hundredth with halves rounding up.
pub open spec fn pct_hundredths(part: int, whole: int) -> int {
    (part * 10000 + whole / 2) / whole
}

/// The one-character string for a single decimal digit value.
fn digit_str(d: u32) -> (r: &'static str)
    requires
        d < 10,
    ensures
        r@ == seq![digit_char(d as int)],
{
    let r = if d == 0 {
        "0"
    } else if d == 1 {
        "1"
    } else if d == 2 {
        "2"
    } else if d == 3 {
        "3"
    } else if d == 4 {
        "4"
    } else if d == 5 {
        "5"
    } else if d == 6 {
        "6"
    } else if d == 7 {
        "7"
    } else if d == 8 {
        "8"
    } else {
        "9"
    };
    proof {
        reveal_strlit("0");
        reveal_strlit("1");
        reveal_strlit("2");
        reveal_strlit("3");
        reveal_strlit("4");
        reveal_strlit("5");
        reveal_strlit("6");
        reveal_strlit("7");
        reveal_strlit("8");
        reveal_strlit("9");
        assert(r@ =~= seq![digit_char(d as int)]);
    }
    r
}

/// `n` in plain decimal, most significant digit first.
pub fn dec_string(n: u32) -> (r: String)
    ensures
        r@ == dec_digits(n as int),
    decreases n,
{
    if n < 10 {
        digit_str(n).to_owned()
    } else {
        let mut s = dec_string(n / 10);
        s.append(digit_str(n % 10));
        proof {
            assert(s@ =~= dec_digits(n as int));
        }
        s
    }
}

/// `n` in decimal with its digits grouped in threes by single spaces.
pub fn format_num(n: u32) -> (r: String)
    ensures
        r@ == format_num_spec(n as int),
    decreases n,
{
    if n < 1000 {
        dec_string(n)
    } else {
        let mut s = format_num(n / 1000);
        s.append(" ");
        let m = n % 1000;
        s.append(digit_str(m / 100));
        s.append(digit_str((m / 10) % 10));
        s.append(digit_str(m % 10));
        proof {
            reveal_strlit(" ");
            assert(s@ =~= format_num_spec(n as int));
        }
        s
    }
}

/// A percentage in hundredths of a percent, as `D.DD%` text.
pub fn percent_string(p: u32) -> (r: String)
    ensures
        r@ == percent_string_spec(p as int),
{
    let mut s = dec_string(p / 100);
    s.append(".");
    s.append(digit_str((p / 10) % 10));
    s.append(digit_str(p % 10));
    s.append("%");
    proof {
        reveal_strlit(".");
        reveal_strlit("%");
        assert(s@ =~= percent_string_spec(p as int));
    }
    s
}

/// The share of `part` in `whole`, in hundredths of a percent, rounded to
/// the nearest hundredth with halves rounding up.
pub fn percentage(part: u32, whole: u32) -> (r: u32)
    requires
        whole > 0,
        part <= whole,
    ensures
        r as int == pct_hundredths(part as int, whole as int),
        r <= 10000,
{
    let num: u64 = (part as u64) * 10000 + (whole as u64) / 2;
    let r64: u64 = num / (whole as u64);
    proof {
        assert((part as int) * 10000 <= (whole as int) * 10000) by (nonlinear_arith)
            requires
                part as int <= whole as int,
        ;
        assert(num as int <= (whole as int) * 10000 + (whole as int) / 2);
        assert((whole as int) * 10000 + (whole as int) / 2 < (whole as int) * 10001) by (nonlinear_arith)
            requires
                whole as int > 0,
        ;
        assert((num as int) / (whole as int) <= 10000) by (nonlinear_arith)
            requires
                whole as int > 0,
                (num as int) < (whole as int) * 10001,
                num as int >= 0,
        ;
    }
    r64 as u32
}

} // verus!
