//! Decimal integers as they are written in import lines.
//!
//! An unsigned number is an optional `+` followed by one or more ASCII digits;
//! a signed number may start with `-` instead. Nothing else is accepted: no
//! blanks, no separators, no empty text, and no value outside the target type.

use vstd::prelude::*;
use vstd::string::StringExecFns;
use crate::text::chars_of;

verus! {

/// Whether `c` is one of the ten ASCII digits.
pub open spec fn is_digit(c: char) -> bool {
    48 <= c as u32 <= 57
}

/// The number that the digit `c` stands for.
pub open spec fn digit_value(c: char) -> nat {
    (c as u32 - 48) as nat
}

/// Whether `s` consists of ASCII digits only.
pub open spec fn all_digits(s: Seq<char>) -> bool {
    forall|i: int| 0 <= i < s.len() ==> is_digit(#[trigger] s[i])
}

/// The number written by the digits `s`, most significant digit first.
pub open spec fn digits_value(s: Seq<char>) -> nat
    decreases s.len(),
{
    if s.len() == 0 {
        0
    } else {
        digits_value(s.drop_last()) * 10 + digit_value(s.last())
    }
}

/// Whether `s` starts with the character `c`.
pub open spec fn starts_with(s: Seq<char>, c: char) -> bool {
    s.len() > 0 && s[0] == c
}

/// The number that `s` writes, if it is an unsigned decimal that fits in 64 bits.
pub open spec fn decimal_u64(s: Seq<char>) -> Option<u64> {
    let digits = if starts_with(s, '+') { s.drop_first() } else { s };
    if digits.len() > 0 && all_digits(digits) && digits_value(digits) <= u64::MAX {
        Some(digits_value(digits) as u64)
    } else {
        None
    }
}

/// The number that `s` writes, if it is a signed decimal that fits in 64 bits.
pub open spec fn decimal_i64(s: Seq<char>) -> Option<i64> {
    let digits = if starts_with(s, '+') || starts_with(s, '-') { s.drop_first() } else { s };
    let value = if starts_with(s, '-') { -(digits_value(digits) as int) } else { digits_value(digits) as int };
    if digits.len() > 0 && all_digits(digits) && i64::MIN <= value <= i64::MAX {
        Some(value as i64)
    } else {
        None
    }
}

/// Appending digits never makes the written number smaller.
pub proof fn lemma_digits_value_monotonic(s: Seq<char>, k: int)
    requires
        0 <= k <= s.len(),
    ensures
        digits_value(s.take(k)) <= digits_value(s),
    decreases s.len() - k,
{
    if k == s.len() {
        assert(s.take(k) =~= s);
    } else {
        lemma_digits_value_monotonic(s.drop_last(), k);
        assert(s.drop_last().take(k) =~= s.take(k));
    }
}

/// The magnitude written by `chars[from..to]`, if that range is a non-empty run
/// of digits whose value does not exceed `limit`.
fn magnitude_in(chars: &Vec<char>, from: usize, to: usize, limit: u64) -> (r: Option<u64>)
    requires
        from <= to <= chars.len(),
        limit >= 9,
    ensures
        r == (if from < to && all_digits(chars@.subrange(from as int, to as int)) && digits_value(
            chars@.subrange(from as int, to as int),
        ) <= limit {
            Some(digits_value(chars@.subrange(from as int, to as int)) as u64)
        } else {
            None
        }),
{
    let ghost whole = chars@.subrange(from as int, to as int);
    if from == to {
        return None;
    }
    let mut acc: u64 = 0;
    let mut i: usize = from;
    while i < to
        invariant
            from <= i <= to <= chars.len(),
            limit >= 9,
            whole == chars@.subrange(from as int, to as int),
            all_digits(whole.take(i - from)),
            acc == digits_value(whole.take(i - from)),
            acc <= limit,
        decreases to - i,
    {
        let c = chars[i];
        let ghost seen = whole.take(i - from);
        let ghost next = whole.take(i - from + 1);
        proof {
            assert(whole[i - from] == c);
            assert(next.drop_last() =~= seen);
            assert(next.last() == c);
        }
        let code: u32 = c as u32;
        if code < 48 || code > 57 {
            assert(!is_digit(whole[i - from]));
            return None;
        }
        let d: u64 = (code - 48) as u64;
        if acc > (limit - d) / 10 {
            proof {
                assert(digits_value(next) == acc * 10 + d);
                assert(acc * 10 + d > limit);
                lemma_digits_value_monotonic(whole, i - from + 1);
            }
            return None;
        }
        acc = acc * 10 + d;
        proof {
            assert forall|j: int| 0 <= j < next.len() implies is_digit(#[trigger] next[j]) by {
                if j < seen.len() {
                    assert(seen[j] == next[j]);
                }
            }
        }
        i = i + 1;
    }
    proof {
        assert(whole.take(to - from) =~= whole);
    }
    Some(acc)
}

/// Reads `chars[from..to]` as an unsigned 64-bit decimal.
pub fn u64_in(chars: &Vec<char>, from: usize, to: usize) -> (r: Option<u64>)
    requires
        from <= to <= chars.len(),
    ensures
        r == decimal_u64(chars@.subrange(from as int, to as int)),
{
    let ghost s = chars@.subrange(from as int, to as int);
    if from < to && chars[from] == '+' {
        proof {
            assert(s[0] == chars@[from as int]);
            assert(s.drop_first() =~= chars@.subrange(from + 1, to as int));
        }
        magnitude_in(chars, from + 1, to, u64::MAX)
    } else {
        proof {
            if from < to {
                assert(s[0] == chars@[from as int]);
            }
        }
        magnitude_in(chars, from, to, u64::MAX)
    }
}

/// Reads `chars[from..to]` as a signed 64-bit decimal.
pub fn i64_in(chars: &Vec<char>, from: usize, to: usize) -> (r: Option<i64>)
    requires
        from <= to <= chars.len(),
    ensures
        r == decimal_i64(chars@.subrange(from as int, to as int)),
{
    let ghost s = chars@.subrange(from as int, to as int);
    proof {
        if from < to {
            assert(s[0] == chars@[from as int]);
            assert(s.drop_first() =~= chars@.subrange(from + 1, to as int));
        }
    }
    if from < to && chars[from] == '-' {
        match magnitude_in(chars, from + 1, to, 9_223_372_036_854_775_808u64) {
            Some(m) => {
                if m == 9_223_372_036_854_775_808u64 {
                    Some(i64::MIN)
                } else {
                    let positive: i64 = m as i64;
                    Some(0 - positive)
                }
            },
            None => None,
        }
    } else if from < to && chars[from] == '+' {
        match magnitude_in(chars, from + 1, to, 9_223_372_036_854_775_807u64) {
            Some(m) => Some(m as i64),
            None => None,
        }
    } else {
        match magnitude_in(chars, from, to, 9_223_372_036_854_775_807u64) {
            Some(m) => Some(m as i64),
            None => None,
        }
    }
}

/// Reads `text` as an unsigned 64-bit decimal.
pub fn parse_u64(text: &str) -> (r: Option<u64>)
    ensures
        r == decimal_u64(text@),
{
    let chars = chars_of(text);
    proof {
        assert(chars@.subrange(0, chars@.len() as int) =~= chars@);
    }
    u64_in(&chars, 0, chars.len())
}

/// Reads `text` as a signed 64-bit decimal.
pub fn parse_i64(text: &str) -> (r: Option<i64>)
    ensures
        r == decimal_i64(text@),
{
    let chars = chars_of(text);
    proof {
        assert(chars@.subrange(0, chars@.len() as int) =~= chars@);
    }
    i64_in(&chars, 0, chars.len())
}

/// The character that writes the digit `d`.
pub open spec fn digit_char(d: nat) -> char {
    ((48 + d) as u8) as char
}

/// How the number `n` is written: in decimal, without sign, and without
/// leading zeros.
pub open spec fn number_text(n: nat) -> Seq<char>
    decreases n,
{
    if n < 10 {
        seq![digit_char(n)]
    } else {
        number_text(n / 10).push(digit_char(n % 10))
    }
}

/// Reading what `number_text` wrote gives the number back.
pub proof fn lemma_number_text_reads_back(n: nat)
    ensures
        number_text(n).len() >= 1,
        all_digits(number_text(n)),
        digits_value(number_text(n)) == n,
        n <= u64::MAX ==> decimal_u64(number_text(n)) == Some(n as u64),
    decreases n,
{
    let text = number_text(n);
    if n < 10 {
        assert(text.drop_last() =~= Seq::<char>::empty());
        assert(digits_value(text.drop_last()) == 0);
        assert(is_digit(text[0]));
    } else {
        lemma_number_text_reads_back(n / 10);
        let front = number_text(n / 10);
        assert(text.drop_last() =~= front);
        assert forall|i: int| 0 <= i < text.len() implies is_digit(#[trigger] text[i]) by {
            if i < front.len() {
                assert(text[i] == front[i]);
            }
        }
    }
    assert(is_digit(text[0]));
    assert(!starts_with(text, '+'));
}

/// The text of one digit.
fn digit_text(d: u8) -> (text: &'static str)
    requires
        d < 10,
    ensures
        text@ == seq![digit_char(d as nat)],
{
    proof {
        reveal_strlit("0");
        reveal_strlit("1");
        reveal_strlit("2");
        reveal_strlit("3");
        reveal_strlit("4");
        reveal_strlit("5");
        reveal_strlit("6");
        reveal_strlit("7");
        reveal_strlit("8");
        reveal_strlit("9");
    }
    let text = match d {
        0 => "0",
        1 => "1",
        2 => "2",
        3 => "3",
        4 => "4",
        5 => "5",
        6 => "6",
        7 => "7",
        8 => "8",
        _ => "9",
    };
    assert(text@ =~= seq![digit_char(d as nat)]);
    text
}

/// Writes `n` in decimal.
pub fn u64_text(n: u64) -> (text: String)
    ensures
        text@ == number_text(n as nat),
    decreases n,
{
    let digit = digit_text((n % 10) as u8);
    if n < 10 {
        digit.to_owned()
    } else {
        let mut text = u64_text(n / 10);
        text.append(digit);
        assert(text@ =~= number_text((n / 10) as nat).push(digit_char((n % 10) as nat)));
        text
    }
}

} // verus!
