use crate::error::JSONParseError;
use crate::grammar::{
    agrees, digit_rule, digits_rule, exponent_rule, fraction_rule, integer_rule, is_digit,
    leading_digits, number_rule, number_value_rule, onenine_rule, starts_with_char,
};
use crate::text::{split_first, strip_char};
use crate::value::{JSONNumber, JSONValue};
use vstd::prelude::*;

verus! {

/// Parses one digit from `1` to `9`.
pub fn onenine(src: &str) -> (r: Result<(&str, char), JSONParseError>)
    ensures
        agrees(r, onenine_rule(src@)),
{
    match split_first(src) {
        Some((c, _, rest)) => if '1' <= c && c <= '9' {
            Ok((rest, c))
        } else {
            Err(JSONParseError::NotFound)
        },
        None => Err(JSONParseError::NotFound),
    }
}

/// Parses one digit.
pub fn digit(src: &str) -> (r: Result<(&str, char), JSONParseError>)
    ensures
        agrees(r, digit_rule(src@)),
{
    match strip_char(src, '0') {
        Some(rest) => Ok((rest, '0')),
        None => onenine(src),
    }
}

/// Parses one or more digits, as many as there are.
pub fn digits(src: &str) -> (r: Result<(&str, Vec<char>), JSONParseError>)
    ensures
        agrees(r, digits_rule(src@)),
{
    let mut cur = src;
    let mut found: Vec<char> = Vec::new();
    loop
        invariant
            found@.len() <= src@.len(),
            found@ == src@.take(found@.len() as int),
            cur@ == src@.skip(found@.len() as int),
            leading_digits(src@) == found@.len() + leading_digits(cur@),
        ensures
            found@.len() <= src@.len(),
            found@ == src@.take(found@.len() as int),
            cur@ == src@.skip(found@.len() as int),
            leading_digits(src@) == found@.len(),
        decreases cur@.len(),
    {
        match digit(cur) {
            Ok((rest, c)) => {
                proof {
                    let k = found@.len() as int;
                    assert(src@.take(k + 1) =~= src@.take(k).push(c));
                    assert(rest@ =~= src@.skip(k + 1));
                }
                found.push(c);
                cur = rest;
            },
            Err(_) => {
                break ;
            },
        }
    }
    if found.len() == 0 {
        Err(JSONParseError::NotFound)
    } else {
        Ok((cur, found))
    }
}

/// Parses the integer part of a number: an optional `-`, then `0` alone or a
/// digit from `1` to `9` with all the digits that follow. Yields the sign and
/// the digits.
pub fn integer(src: &str) -> (r: Result<(&str, (bool, Vec<char>)), JSONParseError>)
    ensures
        agrees(r, integer_rule(src@)),
{
    let (negative, body) = match strip_char(src, '-') {
        Some(rest) => (true, rest),
        None => (false, src),
    };
    match onenine(body) {
        Ok(_) => match digits(body) {
            Ok((rest, found)) => Ok((rest, (negative, found))),
            Err(e) => Err(e),
        },
        Err(_) => match digit(body) {
            Ok((rest, zero)) => {
                let mut found: Vec<char> = Vec::new();
                found.push(zero);
                assert(found@ =~= seq!['0']);
                Ok((rest, (negative, found)))
            },
            Err(e) => Err(e),
        },
    }
}

/// Parses the fraction of a number, if there is one: `.` and one or more
/// digits. Yields the digits, none when `src` does not begin with `.`.
pub fn fraction(src: &str) -> (r: Result<(&str, Vec<char>), JSONParseError>)
    ensures
        agrees(r, fraction_rule(src@)),
{
    match strip_char(src, '.') {
        Some(rest) => digits(rest),
        None => Ok((src, Vec::new())),
    }
}

/// Parses the exponent of a number, if there is one: `e` or `E`, an optional
/// sign and one or more digits. Yields the sign and the digits, none when
/// `src` does not begin with an exponent mark.
pub fn exponent(src: &str) -> (r: Result<(&str, (bool, Vec<char>)), JSONParseError>)
    ensures
        agrees(r, exponent_rule(src@)),
{
    let after_mark = match strip_char(src, 'e') {
        Some(rest) => rest,
        None => match strip_char(src, 'E') {
            Some(rest) => rest,
            None => {
                return Ok((src, (false, Vec::new())));
            },
        },
    };
    let (negative, after_sign) = match strip_char(after_mark, '-') {
        Some(rest) => (true, rest),
        None => match strip_char(after_mark, '+') {
            Some(rest) => (false, rest),
            None => (false, after_mark),
        },
    };
    match digits(after_sign) {
        Ok((rest, found)) => Ok((rest, (negative, found))),
        Err(e) => Err(e),
    }
}

/// The digits that a text begins with are digits.
pub proof fn lemma_leading_digits_are_digits(s: Seq<char>)
    ensures
        leading_digits(s) <= s.len(),
        forall|i: int| 0 <= i < leading_digits(s) ==> is_digit(#[trigger] s[i]),
    decreases s.len(),
{
    if s.len() > 0 && is_digit(s[0]) {
        lemma_leading_digits_are_digits(s.skip(1));
        assert forall|i: int| 0 <= i < leading_digits(s) implies is_digit(#[trigger] s[i]) by {
            if i > 0 {
                assert(s[i] == s.skip(1)[i - 1]);
            }
        }
    }
}

/// What is read as a number has the parts of a number literal: no value is
/// made of a malformed or truncated number.
pub proof fn law_numbers_well_formed(s: Seq<char>)
    ensures
        number_rule(s) matches Ok((_, numeral)) ==> numeral.wf(),
        number_rule(s) matches Err(e) ==> e is NotFound,
{
    let body = if starts_with_char(s, '-') {
        s.skip(1)
    } else {
        s
    };
    lemma_leading_digits_are_digits(body);
    if let Ok((after_integer, _)) = integer_rule(s) {
        if starts_with_char(after_integer, '.') {
            lemma_leading_digits_are_digits(after_integer.skip(1));
        }
        if let Ok((after_fraction, _)) = fraction_rule(after_integer) {
            if starts_with_char(after_fraction, 'e') || starts_with_char(after_fraction, 'E') {
                let t = after_fraction.skip(1);
                let u = if starts_with_char(t, '-') || starts_with_char(t, '+') {
                    t.skip(1)
                } else {
                    t
                };
                lemma_leading_digits_are_digits(u);
            }
        }
    }
}

/// Parses a number at the start of `src`. The number is kept as it is
/// written: its sign and the digits of its three parts.
pub fn number(src: &str) -> (r: Result<(&str, JSONValue), JSONParseError>)
    ensures
        agrees(r, number_value_rule(src@)),
        r matches Ok((_, v)) ==> v.wf(),
{
    proof {
        law_numbers_well_formed(src@);
    }
    let (after_integer, (negative, integer)) = match integer(src) {
        Ok(found) => found,
        Err(e) => {
            return Err(e);
        },
    };
    let (after_fraction, fraction) = match fraction(after_integer) {
        Ok(found) => found,
        Err(e) => {
            return Err(e);
        },
    };
    let (rest, (exponent_negative, exponent)) = match exponent(after_fraction) {
        Ok(found) => found,
        Err(e) => {
            return Err(e);
        },
    };
    Ok(
        (
            rest,
            JSONValue::Number(
                JSONNumber { negative, integer, fraction, exponent_negative, exponent },
            ),
        ),
    )
}

} // verus!
