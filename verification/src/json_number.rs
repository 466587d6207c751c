//! Number tokens of JSON: which of them stand for an INTEGER, and for which.
//!
//! A token is looked at as text. It is an integer where it holds no `.`, `e`
//! or `E`; it is never read as a floating-point number first.

use vstd::prelude::*;
use crate::text::str_chars;

verus! {

/// Whether a character is a decimal digit.
pub open spec fn is_digit(c: char) -> bool {
    '0' <= c <= '9'
}

/// The number that a string of decimal digits denotes; nothing for the empty
/// string and for a string with another character in it.
pub open spec fn digits_value(s: Seq<char>) -> Option<int>
    decreases s.len(),
{
    if s.len() == 0 || !is_digit(s.last()) {
        None
    } else if s.len() == 1 {
        Some(s.last() as int - '0' as int)
    } else {
        match digits_value(s.drop_last()) {
            Some(front) => Some(front * 10 + (s.last() as int - '0' as int)),
            None => None,
        }
    }
}

/// The integer that a token denotes: decimal digits, with `-` or `+` in front
/// or without a sign.
pub open spec fn int_token(tok: Seq<char>) -> Option<int> {
    if tok.len() > 0 && tok[0] == '-' {
        match digits_value(tok.drop_first()) {
            Some(v) => Some(-v),
            None => None,
        }
    } else if tok.len() > 0 && tok[0] == '+' {
        digits_value(tok.drop_first())
    } else {
        digits_value(tok)
    }
}

/// Whether a number token holds `.`, `e` or `E`, which marks it as no integer.
pub open spec fn has_float_mark(tok: Seq<char>) -> bool {
    exists|i: int| 0 <= i < tok.len() && (#[trigger] tok[i] == '.' || tok[i] == 'e' || tok[i] == 'E')
}

/// The INTEGER that a number token stands for: the token has to hold no `.`,
/// `e` or `E`, and has to denote an integer from -2^63 to 2^63 - 1.
pub open spec fn integer_of_token(tok: Seq<char>) -> Option<i64> {
    if has_float_mark(tok) {
        None
    } else {
        match int_token(tok) {
            Some(v) => if i64::MIN <= v <= i64::MAX {
                Some(v as i64)
            } else {
                None
            },
            None => None,
        }
    }
}

/// A string of digits denotes no less than any of its beginnings.
pub proof fn lemma_digits_grow(s: Seq<char>, k: int)
    requires
        0 < k <= s.len(),
        digits_value(s) is Some,
    ensures
        digits_value(s.take(k)) is Some,
        0 <= digits_value(s.take(k))->Some_0 <= digits_value(s)->Some_0,
    decreases s.len(),
{
    if k == s.len() {
        assert(s.take(k) == s);
        lemma_digits_nonnegative(s);
    } else {
        assert(s.drop_last().take(k) == s.take(k));
        lemma_digits_grow(s.drop_last(), k);
    }
}

/// A string of digits denotes no negative number.
pub proof fn lemma_digits_nonnegative(s: Seq<char>)
    requires
        digits_value(s) is Some,
    ensures
        0 <= digits_value(s)->Some_0,
    decreases s.len(),
{
    if s.len() > 1 {
        lemma_digits_nonnegative(s.drop_last());
    }
}

/// Where a beginning of a string is no string of digits, neither is the string.
pub proof fn lemma_digits_fail(s: Seq<char>, k: int)
    requires
        0 < k <= s.len(),
        digits_value(s.take(k)) is None,
    ensures
        digits_value(s) is None,
    decreases s.len(),
{
    if k == s.len() {
        assert(s.take(k) == s);
    } else {
        assert(s.drop_last().take(k) == s.take(k));
        lemma_digits_fail(s.drop_last(), k);
    }
}

/// The INTEGER that a number token stands for.
pub fn parse_integer_token(token: &str) -> (r: Option<i64>)
    ensures
        r == integer_of_token(token@),
{
    let chars = str_chars(token);
    let mut k: usize = 0;
    while k < chars.len()
        invariant
            k <= chars@.len(),
            chars@ == token@,
            forall|j: int| 0 <= j < k ==> !(#[trigger] chars@[j] == '.' || chars@[j] == 'e' || chars@[j] == 'E'),
        decreases chars@.len() - k,
    {
        let c = chars[k];
        if c == '.' || c == 'e' || c == 'E' {
            return None;
        }
        k += 1;
    }
    assert(!has_float_mark(token@));
    let negative = chars.len() > 0 && chars[0] == '-';
    let start: usize = if chars.len() > 0 && (chars[0] == '-' || chars[0] == '+') {
        1
    } else {
        0
    };
    let ghost digits = chars@.skip(start as int);
    assert(start == 1 ==> digits == chars@.drop_first());
    assert(start == 0 ==> digits == chars@);
    if start >= chars.len() {
        return None;
    }
    let mut acc: i128 = 0;
    let mut i: usize = start;
    while i < chars.len()
        invariant
            start <= i <= chars@.len(),
            start < chars@.len(),
            digits == chars@.skip(start as int),
            chars@ == token@,
            !has_float_mark(token@),
            start == 1 ==> digits == chars@.drop_first() && (chars@[0] == '-' || chars@[0] == '+'),
            start == 0 ==> digits == chars@ && chars@[0] != '-' && chars@[0] != '+',
            start <= 1,
            0 <= acc <= 0x8000_0000_0000_0000,
            i > start ==> digits_value(digits.take(i - start)) == Some(acc as int),
            i == start ==> acc == 0,
        decreases chars@.len() - i,
    {
        let c = chars[i];
        let ghost front = digits.take(i + 1 - start);
        assert(front.last() == c);
        assert(front.drop_last() == digits.take(i - start));
        if !(c >= '0' && c <= '9') {
            proof {
                assert(digits_value(front) is None);
                lemma_digits_fail(digits, i + 1 - start);
            }
            return None;
        }
        let d: i128 = (c as u32 - '0' as u32) as i128;
        acc = acc * 10 + d;
        assert(digits_value(front) == Some(acc as int));
        if acc > 0x8000_0000_0000_0000 {
            proof {
                if digits_value(digits) is Some {
                    lemma_digits_grow(digits, i + 1 - start);
                }
            }
            return None;
        }
        i += 1;
    }
    assert(digits.take(i - start) == digits);
    if negative {
        Some((-acc) as i64)
    } else if acc > 0x7FFF_FFFF_FFFF_FFFF {
        None
    } else {
        Some(acc as i64)
    }
}

} // verus!
