//! Validation of a user-supplied count: spaces are ignored (vote counts are
//! displayed with spaces as thousands separators), the rest must parse as a
//! decimal integer that fits an unsigned 32-bit value, and zero is rejected
//! separately so the caller can phrase a distinct message for it.

use vstd::prelude::*;
use vstd::string::StrSliceExecFns;

verus! {

/// Why a count field was rejected.
#[derive(Debug)]
pub enum IntValidationError {
    ZeroValue,
    InvalidNumber,
}

/// `s` with every space removed.
pub open spec fn strip_spaces(s: Seq<char>) -> Seq<char>
    decreases s.len(),
{
    if s.len() == 0 {
        Seq::empty()
    } else {
        strip_spaces(s.drop_last()) + (if s.last() == ' ' {
            Seq::empty()
        } else {
            seq![s.last()]
        })
    }
}

/// `c` is a decimal digit: its code point lies between those of `0` and `9`.
pub open spec fn is_digit(c: char) -> bool {
    48 <= c as int && c as int <= 57
}

/// The numeric value of a digit character.
pub open spec fn digit_val(c: char) -> int {
    c as int - 48
}

/// Every character of `s` is a decimal digit.
pub open spec fn all_digits(s: Seq<char>) -> bool {
    forall|k: int| 0 <= k < s.len() ==> is_digit(#[trigger] s[k])
}

/// The value of a digit string, most significant digit first.
pub open spec fn parsed_value(s: Seq<char>) -> int
    decreases s.len(),
{
    if s.len() == 0 {
        0
    } else {
        parsed_value(s.drop_last()) * 10 + digit_val(s.last())
    }
}

/// `s` without an optional single leading plus sign.
pub open spec fn numeric_body(s: Seq<char>) -> Seq<char> {
    if s.len() > 0 && s[0] == '+' {
        s.drop_first()
    } else {
        s
    }
}

/// `s` is a well-formed unsigned decimal: after an optional leading plus
/// sign there is at least one digit, nothing else, and the value fits an
/// unsigned 32-bit integer.
pub open spec fn parse_ok(s: Seq<char>) -> bool {
    let b = numeric_body(s);
    b.len() > 0 && all_digits(b) && parsed_value(b) <= u32::MAX as int
}

proof fn lemma_parsed_nonneg(s: Seq<char>)
    requires
        all_digits(s),
    ensures
        parsed_value(s) >= 0,
    decreases s.len(),
{
    if s.len() > 0 {
        assert(forall|k: int| 0 <= k < s.len() - 1 ==> s.drop_last()[k] == #[trigger] s[k]);
        lemma_parsed_nonneg(s.drop_last());
    }
}

/// A digit string's value only grows as more digits are read.
proof fn lemma_parsed_prefix(s: Seq<char>, k: int)
    requires
        all_digits(s),
        0 <= k <= s.len(),
    ensures
        parsed_value(s.take(k)) <= parsed_value(s),
    decreases s.len(),
{
    if k < s.len() {
        assert(forall|j: int| 0 <= j < s.len() - 1 ==> s.drop_last()[j] == #[trigger] s[j]);
        assert(s.take(k) =~= s.drop_last().take(k));
        lemma_parsed_prefix(s.drop_last(), k);
        lemma_parsed_nonneg(s.drop_last());
    } else {
        assert(s.take(k) =~= s);
    }
}

/// The numeric value of a digit character, or nothing for any other
/// character.
fn char_digit(c: char) -> (r: Option<u32>)
    ensures
        match r {
            Option::Some(d) => is_digit(c) && d as int == digit_val(c) && d < 10,
            Option::None => !is_digit(c),
        },
{
    match c {
        '0' => Option::Some(0),
        '1' => Option::Some(1),
        '2' => Option::Some(2),
        '3' => Option::Some(3),
        '4' => Option::Some(4),
        '5' => Option::Some(5),
        '6' => Option::Some(6),
        '7' => Option::Some(7),
        '8' => Option::Some(8),
        '9' => Option::Some(9),
        _ => Option::None,
    }
}

/// Checks a count field: spaces are ignored, the rest must be a decimal
/// integer (an optional leading plus sign is accepted), and it must be
/// positive.
pub fn validate_number(number: &str) -> (r: Result<u32, IntValidationError>)
    ensures
        ({
            let t = strip_spaces(number@);
            match r {
                Result::Ok(v) => parse_ok(t) && v as int == parsed_value(numeric_body(t)) && v
                    > 0,
                Result::Err(e) => {
                    &&& (e is ZeroValue <==> (parse_ok(t) && parsed_value(numeric_body(t)) == 0))
                    &&& (e is InvalidNumber <==> !parse_ok(t))
                },
            }
        }),
{
    let n: usize = number.unicode_len();
    let mut cs: Vec<char> = Vec::new();
    let mut i: usize = 0;
    proof {
        assert(number@.take(0) =~= Seq::<char>::empty());
        assert(cs@ =~= strip_spaces(number@.take(0)));
    }
    while i < n
        invariant
            n == number@.len(),
            i <= n,
            cs@ == strip_spaces(number@.take(i as int)),
        decreases n - i,
    {
        proof {
            assert(number@.take(i as int + 1).drop_last() =~= number@.take(i as int));
            assert(number@.take(i as int + 1).last() == number@[i as int]);
        }
        let c = number.get_char(i);
        if c != ' ' {
            cs.push(c);
            proof {
                assert(cs@ =~= strip_spaces(number@.take(i as int + 1)));
            }
        } else {
            proof {
                assert(cs@ =~= strip_spaces(number@.take(i as int + 1)));
            }
        }
        i += 1;
    }
    proof {
        assert(number@.take(n as int) =~= number@);
    }
    let ghost t = strip_spaces(number@);
    let mut start: usize = 0;
    if cs.len() > 0 && cs[0] == '+' {
        start = 1;
    }
    let ghost body = numeric_body(t);
    proof {
        assert(body =~= cs@.subrange(start as int, cs@.len() as int));
    }
    if cs.len() == start {
        return Result::Err(IntValidationError::InvalidNumber);
    }
    let mut val: u32 = 0;
    let mut j: usize = start;
    proof {
        assert(cs@.subrange(start as int, start as int) =~= Seq::<char>::empty());
    }
    while j < cs.len()
        invariant
            start <= j <= cs@.len(),
            body == cs@.subrange(start as int, cs@.len() as int),
            body == numeric_body(t),
            t == strip_spaces(number@),
            start < cs@.len(),
            forall|k: int| start <= k < j ==> is_digit(#[trigger] cs@[k]),
            val as int == parsed_value(cs@.subrange(start as int, j as int)),
        decreases cs@.len() - j,
    {
        let c = cs[j];
        proof {
            assert(body[j - start as int] == cs@[j as int]);
        }
        let d = match char_digit(c) {
            Option::Some(d) => d,
            Option::None => {
                proof {
                    assert(!all_digits(body));
                }
                return Result::Err(IntValidationError::InvalidNumber);
            },
        };
        proof {
            assert(cs@.subrange(start as int, j as int + 1).drop_last() =~= cs@.subrange(
                start as int,
                j as int,
            ));
            assert(cs@.subrange(start as int, j as int + 1).last() == cs@[j as int]);
        }
        if val > 429496729 || (val == 429496729 && d > 5) {
            proof {
                assert(parsed_value(cs@.subrange(start as int, j as int + 1)) > u32::MAX as int);
                if all_digits(body) {
                    assert(body.take(j as int + 1 - start) =~= cs@.subrange(
                        start as int,
                        j as int + 1,
                    ));
                    lemma_parsed_prefix(body, j as int + 1 - start);
                }
            }
            return Result::Err(IntValidationError::InvalidNumber);
        }
        val = val * 10 + d;
        j += 1;
    }
    proof {
        assert(cs@.subrange(start as int, j as int) =~= body);
        assert(all_digits(body)) by {
            assert(forall|k: int|
                0 <= k < body.len() ==> body[k] == #[trigger] cs@[k + start as int]);
        }
    }
    if val == 0 {
        Result::Err(IntValidationError::ZeroValue)
    } else {
        Result::Ok(val)
    }
}

} // verus!
