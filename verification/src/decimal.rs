//! Integers in decimal notation: what a digit string denotes, how an integer
//! is written, and that reading what was written gives the integer back.

use vstd::prelude::*;

verus! {

/// True for the ten characters `0` to `9`.
pub open spec fn is_digit(c: char) -> bool {
    '0' <= c <= '9'
}

/// The value of a digit character.
pub open spec fn digit_value(c: char) -> int {
    c as int - '0' as int
}

/// The character that writes a value below ten.
pub open spec fn digit_char(d: int) -> char {
    (d + '0' as int) as u8 as char
}

/// True when `s` holds digits only.
pub open spec fn all_digits(s: Seq<char>) -> bool {
    forall|i: int| 0 <= i < s.len() ==> is_digit(#[trigger] s[i])
}

/// The number that a string of digits denotes, most significant digit first.
pub open spec fn number(s: Seq<char>) -> int
    decreases s.len(),
{
    if s.len() == 0 {
        0
    } else {
        number(s.drop_last()) * 10 + digit_value(s.last())
    }
}

/// The number that `s` denotes where `s` is one or more digits.
pub open spec fn parse_digits(s: Seq<char>) -> Option<int> {
    if s.len() > 0 && all_digits(s) {
        Some(number(s))
    } else {
        None
    }
}

/// The integer that `s` denotes: an optional `+` or `-`, then one or more
/// digits, and nothing else.
pub open spec fn parse_signed(s: Seq<char>) -> Option<int> {
    if s.len() > 0 && s[0] == '-' {
        match parse_digits(s.skip(1)) {
            Some(n) => Some(-n),
            None => None,
        }
    } else if s.len() > 0 && s[0] == '+' {
        parse_digits(s.skip(1))
    } else {
        parse_digits(s)
    }
}

/// The natural number that `s` denotes: an optional `+`, then one or more
/// digits, and nothing else.
pub open spec fn parse_unsigned(s: Seq<char>) -> Option<int> {
    if s.len() > 0 && s[0] == '+' {
        parse_digits(s.skip(1))
    } else {
        parse_digits(s)
    }
}

/// The digits of a natural number, without leading zeros.
pub open spec fn digits(n: nat) -> Seq<char>
    decreases n,
{
    if n < 10 {
        seq![digit_char(n as int)]
    } else {
        digits(n / 10).push(digit_char((n % 10) as int))
    }
}

/// An integer in decimal notation, with `-` in front where it is negative.
pub open spec fn decimal(n: int) -> Seq<char> {
    if n < 0 {
        seq!['-'] + digits((-n) as nat)
    } else {
        digits(n as nat)
    }
}

/// The digits of a number are digits, at least one, and denote the number.
pub proof fn lemma_digits(n: nat)
    ensures
        digits(n).len() > 0,
        all_digits(digits(n)),
        number(digits(n)) == n,
    decreases n,
{
    if n < 10 {
        let s = digits(n);
        assert(number(s) == number(s.drop_last()) * 10 + digit_value(s.last()));
    } else {
        lemma_digits(n / 10);
        let init = digits(n / 10);
        let s = digits(n);
        assert(s.drop_last() == init);
    }
}

/// Decimal notation holds digits and the sign `-`, nothing else.
pub proof fn lemma_decimal_chars(n: int)
    ensures
        forall|i: int|
            0 <= i < decimal(n).len() ==> is_digit(#[trigger] decimal(n)[i]) || decimal(n)[i]
                == '-',
{
    if n < 0 {
        lemma_digits((-n) as nat);
        let body = digits((-n) as nat);
        assert forall|i: int| 0 <= i < decimal(n).len() implies is_digit(#[trigger] decimal(n)[i])
            || decimal(n)[i] == '-' by {
            if i > 0 {
                assert(decimal(n)[i] == body[i - 1]);
            }
        }
    } else {
        lemma_digits(n as nat);
    }
}

/// Reading an integer in decimal notation gives the integer.
pub proof fn lemma_parse_decimal(n: int)
    ensures
        parse_signed(decimal(n)) == Some(n),
{
    if n < 0 {
        lemma_digits((-n) as nat);
        assert(decimal(n).skip(1) == digits((-n) as nat));
    } else {
        lemma_digits(n as nat);
    }
}

/// A string of digits denotes no negative number.
pub proof fn lemma_number_nonnegative(s: Seq<char>)
    requires
        all_digits(s),
    ensures
        0 <= number(s),
    decreases s.len(),
{
    if s.len() > 0 {
        lemma_number_nonnegative(s.drop_last());
    }
}

/// Reads `chars[from..to]` as one or more digits that denote at most `limit`.
pub fn read_number(chars: &Vec<char>, from: usize, to: usize, limit: u64) -> (value: Option<u64>)
    requires
        from <= to <= chars.len(),
    ensures
        value == match parse_digits(chars@.subrange(from as int, to as int)) {
            Some(n) if n <= limit => Some(n as u64),
            _ => None::<u64>,
        },
{
    let ghost s = chars@.subrange(from as int, to as int);
    if from == to {
        return None;
    }
    let mut acc: u128 = 0;
    let mut i: usize = from;
    while i < to
        invariant
            from <= i <= to <= chars.len(),
            s == chars@.subrange(from as int, to as int),
            all_digits(s.take(i - from)),
            acc <= limit ==> acc == number(s.take(i - from)),
            acc > limit ==> number(s.take(i - from)) > limit,
            acc <= 10 * limit + 9,
        decreases to - i,
    {
        let c = chars[i];
        proof {
            assert(s[i - from] == c);
            assert(s.take(i - from + 1).drop_last() == s.take(i - from));
        }
        if !('0' <= c && c <= '9') {
            return None;
        }
        proof {
            lemma_number_nonnegative(s.take(i - from));
            assert forall|j: int| 0 <= j < i - from + 1 implies is_digit(
                #[trigger] s.take(i - from + 1)[j],
            ) by {
                if j < i - from {
                    assert(s.take(i - from)[j] == s[j]);
                }
            }
        }
        if acc <= limit as u128 {
            acc = acc * 10 + (c as u32 - '0' as u32) as u128;
        }
        i += 1;
    }
    proof {
        assert(s.take(to - from) == s);
    }
    if acc <= limit as u128 {
        Some(acc as u64)
    } else {
        None
    }
}

/// The `i32` that `s` denotes, where it denotes an integer in the range of
/// that type.
pub open spec fn parse_i32(s: Seq<char>) -> Option<i32> {
    match parse_signed(s) {
        Some(n) if i32::MIN <= n <= i32::MAX => Some(n as i32),
        _ => None,
    }
}

/// The `usize` that `s` denotes, where it denotes a natural number in the
/// range of that type.
pub open spec fn parse_usize(s: Seq<char>) -> Option<usize> {
    match parse_unsigned(s) {
        Some(n) if n <= usize::MAX => Some(n as usize),
        _ => None,
    }
}

/// Reads `chars[from..to]` as a signed integer that fits in an `i32`.
pub fn read_i32(chars: &Vec<char>, from: usize, to: usize) -> (value: Option<i32>)
    requires
        from <= to <= chars.len(),
    ensures
        value == parse_i32(chars@.subrange(from as int, to as int)),
{
    let ghost s = chars@.subrange(from as int, to as int);
    if from < to && chars[from] == '-' {
        assert(s.skip(1) == chars@.subrange(from + 1, to as int));
        proof {
            if parse_digits(s.skip(1)) is Some {
                lemma_number_nonnegative(s.skip(1));
            }
        }
        match read_number(chars, from + 1, to, 0x8000_0000) {
            Some(n) => Some((-(n as i64)) as i32),
            None => None,
        }
    } else if from < to && chars[from] == '+' {
        assert(s.skip(1) == chars@.subrange(from + 1, to as int));
        proof {
            if parse_digits(s.skip(1)) is Some {
                lemma_number_nonnegative(s.skip(1));
            }
        }
        match read_number(chars, from + 1, to, 0x7fff_ffff) {
            Some(n) => Some(n as i32),
            None => None,
        }
    } else {
        proof {
            if parse_digits(s) is Some {
                lemma_number_nonnegative(s);
            }
        }
        match read_number(chars, from, to, 0x7fff_ffff) {
            Some(n) => Some(n as i32),
            None => None,
        }
    }
}

/// Reads `chars[from..to]` as a natural number that fits in a `usize`.
pub fn read_usize(chars: &Vec<char>, from: usize, to: usize) -> (value: Option<usize>)
    requires
        from <= to <= chars.len(),
    ensures
        value == parse_usize(chars@.subrange(from as int, to as int)),
{
    let ghost s = chars@.subrange(from as int, to as int);
    let start = if from < to && chars[from] == '+' {
        from + 1
    } else {
        from
    };
    proof {
        let body = chars@.subrange(start as int, to as int);
        assert(start > from ==> s.skip(1) == body);
        if parse_digits(body) is Some {
            lemma_number_nonnegative(body);
        }
    }
    match read_number(chars, start, to, usize::MAX as u64) {
        Some(n) => Some(n as usize),
        None => None,
    }
}

/// Appends the digits of `n` to `out`.
pub fn push_digits(out: &mut String, n: u64)
    ensures
        final(out)@ == old(out)@ + digits(n as nat),
    decreases n,
{
    if n >= 10 {
        push_digits(out, n / 10);
    }
    out.push((48u8 + (n % 10) as u8) as char);
}

/// Appends `n` in decimal notation to `out`.
pub fn push_decimal(out: &mut String, n: i32)
    ensures
        final(out)@ == old(out)@ + decimal(n as int),
{
    if n < 0 {
        out.push('-');
        push_digits(out, (-(n as i64)) as u64);
    } else {
        push_digits(out, n as u64);
    }
}

/// What reads as a natural number is not negative.
pub proof fn lemma_unsigned_nonnegative(s: Seq<char>)
    ensures
        parse_unsigned(s) matches Some(n) ==> n >= 0,
{
    if s.len() > 0 && s[0] == '+' {
        if all_digits(s.skip(1)) {
            lemma_number_nonnegative(s.skip(1));
        }
    } else if all_digits(s) {
        lemma_number_nonnegative(s);
    }
}

} // verus!
