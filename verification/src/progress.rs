use crate::error::JSONParseError;
use crate::grammar::{
    array_rule, bool_rule, digits_rule, element_rule, elements_from, exponent_rule,
    fraction_rule, integer_rule, is_digit, is_whitespace, leading_digits, member_rule,
    members_from, null_rule, number_rule, number_value_rule, object_rule, remaining,
    scan_string, skip_whitespace, starts_with_char, string_rule, string_value_rule, unescape,
    value_rule, Parsed, StringScan,
};
use crate::text::{byte_len, lemma_byte_len_split};
use vstd::prelude::*;

verus! {

/// Whether `rest` is what remains of `s` after some prefix is removed.
pub open spec fn is_tail_of(rest: Seq<char>, s: Seq<char>) -> bool {
    rest.len() <= s.len() && rest == s.skip(s.len() - rest.len())
}

/// Whether the failure `e` points into the text `s`: it is `NotFound`, which
/// points nowhere, or it is an unexpected character or a missing closing and
/// the unread bytes that it reports are those of a tail of `s`.
pub open spec fn points_into(e: JSONParseError, s: Seq<char>) -> bool {
    e is NotFound || (!(e is Error) && exists|t: Seq<char>| #[trigger]
        is_tail_of(t, s) && e.spec_remaining() == remaining(t))
}

/// Whether an outcome stays inside the text `s` that the rule was given: a
/// rest is a tail of `s`, and a failure points into `s`.
pub open spec fn within<T>(outcome: Parsed<T>, s: Seq<char>) -> bool {
    match outcome {
        Ok((rest, _)) => is_tail_of(rest, s),
        Err(e) => points_into(e, s),
    }
}

/// Whether an outcome, if it is a success, has read at least one character
/// of `s`.
pub open spec fn advances<T>(outcome: Parsed<T>, s: Seq<char>) -> bool {
    outcome matches Ok((rest, _)) ==> rest.len() < s.len()
}

pub proof fn lemma_skip_is_tail(s: Seq<char>, k: int)
    requires
        0 <= k <= s.len(),
    ensures
        is_tail_of(s.skip(k), s),
{
}

pub proof fn lemma_tail_refl(s: Seq<char>)
    ensures
        is_tail_of(s, s),
{
    assert(s =~= s.skip(0));
}

pub proof fn lemma_tail_of_tail(a: Seq<char>, b: Seq<char>, c: Seq<char>)
    requires
        is_tail_of(a, b),
        is_tail_of(b, c),
    ensures
        is_tail_of(a, c),
{
    assert(a =~= c.skip(c.len() - a.len()));
}

/// A tail has no more bytes than the whole.
pub proof fn lemma_tail_bytes(rest: Seq<char>, s: Seq<char>)
    requires
        is_tail_of(rest, s),
    ensures
        byte_len(rest) <= byte_len(s),
{
    lemma_byte_len_split(s, s.len() - rest.len());
}

/// An outcome that stays inside a tail of `s` stays inside `s`.
pub proof fn lemma_within_tail<T>(outcome: Parsed<T>, t: Seq<char>, s: Seq<char>)
    requires
        within(outcome, t),
        is_tail_of(t, s),
    ensures
        within(outcome, s),
{
    match outcome {
        Ok((rest, _)) => lemma_tail_of_tail(rest, t, s),
        Err(e) => {
            if !(e is NotFound) {
                let inner = choose|inner: Seq<char>| #[trigger]
                    is_tail_of(inner, t) && e.spec_remaining() == remaining(inner);
                lemma_tail_of_tail(inner, t, s);
            }
        },
    }
}

pub proof fn lemma_skip_whitespace_tail(s: Seq<char>)
    ensures
        is_tail_of(skip_whitespace(s), s),
    decreases s.len(),
{
    if s.len() > 0 && is_whitespace(s[0]) {
        lemma_skip_whitespace_tail(s.skip(1));
        lemma_tail_of_tail(skip_whitespace(s), s.skip(1), s);
    } else {
        lemma_tail_refl(s);
    }
}

pub proof fn lemma_leading_digits_bound(s: Seq<char>)
    ensures
        leading_digits(s) <= s.len(),
    decreases s.len(),
{
    if s.len() > 0 && is_digit(s[0]) {
        lemma_leading_digits_bound(s.skip(1));
    }
}

pub proof fn lemma_keywords_within(s: Seq<char>)
    ensures
        within(null_rule(s), s),
        advances(null_rule(s), s),
        within(bool_rule(s), s),
        advances(bool_rule(s), s),
{
    reveal_strlit("null");
    reveal_strlit("true");
    reveal_strlit("false");
}

pub proof fn lemma_digits_within(s: Seq<char>)
    ensures
        within(digits_rule(s), s),
        advances(digits_rule(s), s),
{
    lemma_leading_digits_bound(s);
}

pub proof fn lemma_number_within(s: Seq<char>)
    ensures
        within(number_rule(s), s),
        advances(number_rule(s), s),
        within(number_value_rule(s), s),
        advances(number_value_rule(s), s),
{
    let body = if starts_with_char(s, '-') {
        s.skip(1)
    } else {
        s
    };
    lemma_leading_digits_bound(body);
    lemma_tail_refl(s);
    if let Ok((after_integer, _)) = integer_rule(s) {
        assert(is_tail_of(after_integer, s)) by {
            lemma_tail_of_tail(after_integer, body, s);
        }
        assert(after_integer.len() < s.len());
        if starts_with_char(after_integer, '.') {
            lemma_digits_within(after_integer.skip(1));
        }
        if let Ok((after_fraction, _)) = fraction_rule(after_integer) {
            assert(is_tail_of(after_fraction, after_integer)) by {
                if starts_with_char(after_integer, '.') {
                    lemma_tail_of_tail(after_fraction, after_integer.skip(1), after_integer);
                } else {
                    lemma_tail_refl(after_integer);
                }
            }
            lemma_tail_of_tail(after_fraction, after_integer, s);
            if starts_with_char(after_fraction, 'e') || starts_with_char(after_fraction, 'E') {
                let t = after_fraction.skip(1);
                let u = if starts_with_char(t, '-') || starts_with_char(t, '+') {
                    t.skip(1)
                } else {
                    t
                };
                lemma_digits_within(u);
                lemma_tail_refl(t);
                if let Ok((rest, _)) = exponent_rule(after_fraction) {
                    lemma_tail_of_tail(rest, u, t);
                    lemma_tail_of_tail(rest, t, after_fraction);
                }
            }
            if let Ok((rest, _)) = exponent_rule(after_fraction) {
                lemma_tail_refl(after_fraction);
                lemma_tail_of_tail(rest, after_fraction, s);
            }
        }
    }
}

pub proof fn lemma_scan_string_tail(s: Seq<char>)
    ensures
        scan_string(s) matches StringScan::Closed { rest, .. } ==> is_tail_of(rest, s) && rest.len()
            < s.len(),
        scan_string(s) matches StringScan::BadEscape { after } ==> is_tail_of(after, s),
    decreases s.len(),
{
    if s.len() == 0 {
    } else if s[0] == '"' {
    } else if s[0] == '\\' {
        if s.len() > 1 && unescape(s[1]) is Some {
            lemma_scan_string_tail(s.skip(2));
            match scan_string(s.skip(2)) {
                StringScan::Closed { rest, .. } => lemma_tail_of_tail(rest, s.skip(2), s),
                StringScan::BadEscape { after } => lemma_tail_of_tail(after, s.skip(2), s),
                _ => {},
            }
        }
    } else {
        lemma_scan_string_tail(s.skip(1));
        match scan_string(s.skip(1)) {
            StringScan::Closed { rest, .. } => lemma_tail_of_tail(rest, s.skip(1), s),
            StringScan::BadEscape { after } => lemma_tail_of_tail(after, s.skip(1), s),
            _ => {},
        }
    }
}

pub proof fn lemma_string_within(s: Seq<char>)
    ensures
        within(string_rule(s), s),
        advances(string_rule(s), s),
        within(string_value_rule(s), s),
        advances(string_value_rule(s), s),
{
    if starts_with_char(s, '"') {
        lemma_scan_string_tail(s.skip(1));
        match scan_string(s.skip(1)) {
            StringScan::Closed { rest, .. } => lemma_tail_of_tail(rest, s.skip(1), s),
            StringScan::BadEscape { after } => lemma_tail_of_tail(after, s.skip(1), s),
            StringScan::Unterminated => lemma_skip_is_tail(s, 1),
        }
    }
}

/// A value stays inside its text and, when found, reads part of it.
pub proof fn lemma_value_within(s: Seq<char>)
    ensures
        within(value_rule(s), s),
        advances(value_rule(s), s),
    decreases s.len(), 3nat,
{
    lemma_object_within(s);
    lemma_array_within(s);
    lemma_string_within(s);
    lemma_number_within(s);
    lemma_keywords_within(s);
}

/// An element stays inside its text and, when found, reads part of it.
pub proof fn lemma_element_within(s: Seq<char>)
    ensures
        within(element_rule(s), s),
        advances(element_rule(s), s),
    decreases s.len(), 4nat,
{
    let t = skip_whitespace(s);
    lemma_skip_whitespace_tail(s);
    lemma_value_within(t);
    lemma_within_tail(value_rule(t), t, s);
    if let Ok((rest, _)) = value_rule(t) {
        lemma_skip_whitespace_tail(rest);
        lemma_tail_of_tail(skip_whitespace(rest), rest, s);
    }
}

/// A list of elements stays inside its text and, when found, reads part of
/// it.
pub proof fn lemma_elements_within(s: Seq<char>, first: bool)
    ensures
        within(elements_from(s, first), s),
        advances(elements_from(s, first), s),
    decreases s.len(), 5nat,
{
    lemma_element_within(s);
    match element_rule(s) {
        Err(_) => {
            lemma_skip_whitespace_tail(s);
        },
        Ok((rest, _)) => {
            if starts_with_char(rest, ',') {
                let next = rest.skip(1);
                lemma_elements_within(next, false);
                lemma_skip_is_tail(rest, 1);
                lemma_tail_of_tail(next, rest, s);
                lemma_within_tail(elements_from(next, false), next, s);
            }
        },
    }
}

/// An array stays inside its text and, when found, reads part of it.
pub proof fn lemma_array_within(s: Seq<char>)
    ensures
        within(array_rule(s), s),
        advances(array_rule(s), s),
    decreases s.len(), 2nat,
{
    if starts_with_char(s, '[') {
        let inner = skip_whitespace(s.skip(1));
        lemma_skip_whitespace_tail(s.skip(1));
        lemma_tail_of_tail(inner, s.skip(1), s);
        if starts_with_char(inner, ']') {
            lemma_skip_is_tail(inner, 1);
            lemma_tail_of_tail(inner.skip(1), inner, s);
        } else {
            lemma_elements_within(inner, true);
            lemma_within_tail(elements_from(inner, true), inner, s);
            if let Ok((rest, _)) = elements_from(inner, true) {
                if starts_with_char(rest, ']') {
                    lemma_skip_is_tail(rest, 1);
                    lemma_tail_of_tail(rest.skip(1), rest, s);
                }
            }
        }
    }
}

/// A member stays inside its text and, when found, reads part of it.
pub proof fn lemma_member_within(s: Seq<char>)
    ensures
        within(member_rule(s), s),
        advances(member_rule(s), s),
    decreases s.len(), 5nat,
{
    let key = skip_whitespace(s);
    lemma_skip_whitespace_tail(s);
    lemma_string_within(key);
    lemma_within_tail(string_rule(key), key, s);
    if let Ok((after_key, _)) = string_rule(key) {
        let colon = skip_whitespace(after_key);
        lemma_skip_whitespace_tail(after_key);
        lemma_tail_of_tail(colon, after_key, s);
        if starts_with_char(colon, ':') {
            let next = colon.skip(1);
            lemma_skip_is_tail(colon, 1);
            lemma_tail_of_tail(next, colon, s);
            lemma_element_within(next);
            lemma_within_tail(element_rule(next), next, s);
        }
    }
}

/// A list of members stays inside its text and, when found, reads part of
/// it.
pub proof fn lemma_members_within(s: Seq<char>, first: bool)
    ensures
        within(members_from(s, first), s),
        advances(members_from(s, first), s),
    decreases s.len(), 6nat,
{
    lemma_member_within(s);
    match member_rule(s) {
        Err(_) => {
            lemma_skip_whitespace_tail(s);
        },
        Ok((rest, _)) => {
            if starts_with_char(rest, ',') {
                let next = rest.skip(1);
                lemma_members_within(next, false);
                lemma_skip_is_tail(rest, 1);
                lemma_tail_of_tail(next, rest, s);
                lemma_within_tail(members_from(next, false), next, s);
            }
        },
    }
}

/// An object stays inside its text and, when found, reads part of it.
pub proof fn lemma_object_within(s: Seq<char>)
    ensures
        within(object_rule(s), s),
        advances(object_rule(s), s),
    decreases s.len(), 2nat,
{
    if starts_with_char(s, '{') {
        let inner = skip_whitespace(s.skip(1));
        lemma_skip_whitespace_tail(s.skip(1));
        lemma_tail_of_tail(inner, s.skip(1), s);
        if starts_with_char(inner, '}') {
            lemma_skip_is_tail(inner, 1);
            lemma_tail_of_tail(inner.skip(1), inner, s);
        } else {
            lemma_members_within(inner, true);
            lemma_within_tail(members_from(inner, true), inner, s);
            if let Ok((rest, _)) = members_from(inner, true) {
                if starts_with_char(rest, '}') {
                    lemma_skip_is_tail(rest, 1);
                    lemma_tail_of_tail(rest.skip(1), rest, s);
                }
            }
        }
    }
}

} // verus!
