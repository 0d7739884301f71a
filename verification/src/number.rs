//! Whole numbers as decimal text: writing them, and reading them back with
//! the grammar of the standard library's integer parsers.

use crate::text::chars_of;
use vstd::prelude::*;

verus! {

pub open spec fn is_digit(c: char) -> bool {
    '0' <= c && c <= '9'
}

pub open spec fn digit_value(c: char) -> int {
    c as int - '0' as int
}

pub open spec fn digit_of(d: nat) -> char {
    (48 + d) as char
}

/// The decimal digits of `n`, without leading zeros.
pub open spec fn decimal(n: nat) -> Seq<char>
    decreases n,
{
    if n < 10 {
        seq![digit_of(n)]
    } else {
        decimal(n / 10).push(digit_of(n % 10))
    }
}

pub open spec fn all_digits(s: Seq<char>) -> bool {
    forall|i: int| 0 <= i < s.len() ==> is_digit(#[trigger] s[i])
}

/// The number that a run of decimal digits stands for.
pub open spec fn digits_value(s: Seq<char>) -> int
    decreases s.len(),
{
    if s.len() == 0 {
        0
    } else {
        10 * digits_value(s.drop_last()) + digit_value(s.last())
    }
}

/// What is left of `s` without the sign `sign` in front.
pub open spec fn past(s: Seq<char>, sign: char) -> Seq<char> {
    if s.len() > 0 && s[0] == sign {
        s.drop_first()
    } else {
        s
    }
}

/// Text read as an unsigned number no larger than `max`: an optional `+` and
/// then digits only, at least one.
pub open spec fn unsigned(s: Seq<char>, max: int) -> Option<int> {
    let body = past(s, '+');
    if body.len() > 0 && all_digits(body) && digits_value(body) <= max {
        Some(digits_value(body))
    } else {
        None
    }
}

/// Text read as a 32-bit signed number: an optional `+` or `-` and then digits
/// only, at least one.
pub open spec fn signed(s: Seq<char>) -> Option<int> {
    if s.len() > 0 && s[0] == '-' {
        let body = s.drop_first();
        if body.len() > 0 && all_digits(body) && -digits_value(body) >= i32::MIN {
            Some(-digits_value(body))
        } else {
            None
        }
    } else {
        unsigned(s, i32::MAX as int)
    }
}

// ---------------------------------------------------------------------------
// Facts
// ---------------------------------------------------------------------------

/// More digits never make a number smaller.
proof fn lemma_value_monotone(s: Seq<char>, i: int)
    requires
        all_digits(s),
        0 <= i <= s.len(),
    ensures
        0 <= digits_value(s.take(i)) <= digits_value(s),
    decreases s.len(),
{
    if s.len() > 0 {
        let shorter = s.drop_last();
        assert(all_digits(shorter)) by {
            assert forall|k: int| 0 <= k < shorter.len() implies is_digit(#[trigger] shorter[k]) by {
                assert(shorter[k] == s[k]);
            }
        }
        assert(is_digit(s[s.len() - 1]));
        if i < s.len() {
            lemma_value_monotone(shorter, i);
            assert(shorter.take(i) == s.take(i));
        } else {
            lemma_value_monotone(shorter, i - 1);
            assert(s.take(i) == s);
        }
    } else {
        assert(s.take(i) == s);
    }
}

/// What is written for a number is digits only, and stands for it.
pub proof fn decimal_is_digits(n: nat)
    ensures
        decimal(n).len() >= 1,
        all_digits(decimal(n)),
        digits_value(decimal(n)) == n,
    decreases n,
{
    reveal_with_fuel(digits_value, 2);
    if n < 10 {
        let s = decimal(n);
        assert(s.drop_last() == Seq::<char>::empty());
        assert(is_digit(s[0]));
    } else {
        decimal_is_digits(n / 10);
        let front = decimal(n / 10);
        let s = decimal(n);
        assert(s.drop_last() == front);
        assert forall|k: int| 0 <= k < s.len() implies is_digit(#[trigger] s[k]) by {
            if k < front.len() {
                assert(s[k] == front[k]);
            }
        }
    }
}

/// What is read as an unsigned number is not negative and no larger than the
/// largest.
pub proof fn unsigned_stays_in_range(s: Seq<char>, max: int)
    ensures
        unsigned(s, max) matches Some(n) ==> 0 <= n <= max,
{
    if unsigned(s, max) is Some {
        lemma_digits_not_negative(past(s, '+'));
    }
}

proof fn lemma_digits_not_negative(s: Seq<char>)
    requires
        all_digits(s),
    ensures
        digits_value(s) >= 0,
    decreases s.len(),
{
    if s.len() > 0 {
        let front = s.drop_last();
        assert forall|i: int| 0 <= i < front.len() implies is_digit(#[trigger] front[i]) by {
            assert(front[i] == s[i]);
        }
        lemma_digits_not_negative(front);
        assert(is_digit(s[s.len() - 1]));
    }
}

/// No zero is written in front of a number.
pub proof fn decimal_has_no_leading_zero(n: nat)
    ensures
        n < 10 ==> decimal(n).len() == 1,
        n > 0 ==> decimal(n)[0] != '0',
    decreases n,
{
    decimal_is_digits(n);
    if n >= 10 {
        decimal_has_no_leading_zero(n / 10);
        decimal_is_digits(n / 10);
    }
}

/// Reading a number back from its decimal digits gives that number.
pub proof fn decimal_reads_back(n: nat, max: int)
    requires
        n <= max,
    ensures
        unsigned(decimal(n), max) == Some(n as int),
{
    decimal_is_digits(n);
    assert(is_digit(decimal(n)[0]));
}

// ---------------------------------------------------------------------------
// Writing and reading
// ---------------------------------------------------------------------------

/// Append the decimal digits of `n` to `out`.
pub fn push_decimal(out: &mut String, n: u64)
    ensures
        final(out)@ == old(out)@ + decimal(n as nat),
    decreases n,
{
    let ghost start = out@;
    if n >= 10 {
        push_decimal(out, n / 10);
    }
    let digit: u8 = (n % 10) as u8;
    out.push((48 + digit) as char);
    assert(out@ == start + decimal(n as nat));
}

/// The number that the digits `chars[from..]` stand for, if there is at least
/// one, they are digits only, and it is no larger than `max`.
fn read_digits(chars: &Vec<char>, from: usize, max: u64) -> (r: Option<u64>)
    requires
        from <= chars@.len(),
    ensures
        ({
            let body = chars@.skip(from as int);
            match r {
                Some(n) => body.len() > 0 && all_digits(body) && digits_value(body) == n && n <= max,
                None => !(body.len() > 0 && all_digits(body) && digits_value(body) <= max),
            }
        }),
{
    let ghost body = chars@.skip(from as int);
    if from == chars.len() {
        return None;
    }
    let mut total: u64 = 0;
    let mut i: usize = from;
    while i < chars.len()
        invariant
            from <= i <= chars@.len(),
            body == chars@.skip(from as int),
            total == digits_value(body.take(i - from)),
            total <= max,
            forall|k: int| 0 <= k < i - from ==> is_digit(#[trigger] body[k]),
        decreases chars@.len() - i,
    {
        let c = chars[i];
        assert(c == body[i - from]);
        if c < '0' || c > '9' {
            return None;
        }
        let digit: u64 = (c as u32 - 48) as u64;
        let wide: u128 = total as u128 * 10 + digit as u128;
        proof {
            assert(body.take(i - from + 1).drop_last() == body.take(i - from));
        }
        if wide > max as u128 {
            proof {
                if all_digits(body) {
                    lemma_value_monotone(body, i - from + 1);
                }
            }
            return None;
        }
        total = wide as u64;
        i += 1;
    }
    assert(body.take(body.len() as int) == body);
    Some(total)
}

/// Read `text` as an unsigned number no larger than `max`.
pub fn parse_unsigned(text: &str, max: u64) -> (r: Option<u64>)
    ensures
        match r {
            Some(n) => unsigned(text@, max as int) == Some(n as int),
            None => unsigned(text@, max as int) is None,
        },
{
    let chars = chars_of(text);
    let from: usize = if chars.len() > 0 && chars[0] == '+' {
        1
    } else {
        0
    };
    assert(chars@.skip(from as int) == past(text@, '+'));
    read_digits(&chars, from, max)
}

/// Read `text` as a 32-bit signed number.
pub fn parse_signed(text: &str) -> (r: Option<i32>)
    ensures
        match r {
            Some(n) => signed(text@) == Some(n as int),
            None => signed(text@) is None,
        },
{
    let chars = chars_of(text);
    if chars.len() > 0 && chars[0] == '-' {
        assert(chars@.skip(1) == text@.drop_first());
        match read_digits(&chars, 1, 2_147_483_648) {
            Some(n) => Some((0 - n as i64) as i32),
            None => None,
        }
    } else {
        match parse_unsigned(text, 2_147_483_647) {
            Some(n) => Some(n as i32),
            None => None,
        }
    }
}

} // verus!
