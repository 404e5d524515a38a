use crate::error::JSONParseError;
use crate::text::byte_len;
use crate::value::{pairs_map, Json, Numeral};
use vstd::prelude::*;

verus! {

/// What a rule makes of a text: the unread rest and the fragment it found, or
/// the failure.
pub type Parsed<T> = Result<(Seq<char>, T), JSONParseError>;

/// The outcome of a rule that found `fragment` and left `rest` unread.
pub open spec fn found<T>(rest: Seq<char>, fragment: T) -> Parsed<T> {
    Ok((rest, fragment))
}

/// The outcome of a rule that does not apply.
pub open spec fn not_found<T>() -> Parsed<T> {
    Err(JSONParseError::NotFound)
}

/// Whether the outcome `r` of a rule is the one that `expected` describes:
/// the same rest and a fragment with the same content, or the same failure.
pub open spec fn agrees<T: View>(r: Result<(&str, T), JSONParseError>, expected: Parsed<T::V>) -> bool {
    match expected {
        Ok((rest, fragment)) => r matches Ok((out, found)) && out@ == rest && found@ == fragment,
        Err(e) => r matches Err(f) && f == e,
    }
}

/// The unread byte count that a failure carries when `rest` is still unread.
pub open spec fn remaining(rest: Seq<char>) -> usize {
    byte_len(rest) as usize
}

/// Whether `word` stands at the start of `s`.
pub open spec fn starts_with(s: Seq<char>, word: Seq<char>) -> bool {
    word.len() <= s.len() && s.take(word.len() as int) == word
}

/// Whether `c` stands at the start of `s`.
pub open spec fn starts_with_char(s: Seq<char>, c: char) -> bool {
    s.len() > 0 && s[0] == c
}

/// Space, line feed, tab and carriage return.
pub open spec fn is_whitespace(c: char) -> bool {
    c == ' ' || c == '\n' || c == '\t' || c == '\r'
}

/// `s` without its longest prefix of whitespace.
pub open spec fn skip_whitespace(s: Seq<char>) -> Seq<char>
    decreases s.len(),
{
    if s.len() > 0 && is_whitespace(s[0]) {
        skip_whitespace(s.skip(1))
    } else {
        s
    }
}

/// The keyword `null`.
pub open spec fn null_rule(s: Seq<char>) -> Parsed<Json> {
    if starts_with(s, "null"@) {
        Ok((s.skip("null"@.len() as int), Json::Null))
    } else {
        Err(JSONParseError::NotFound)
    }
}

/// The keywords `true` and `false`.
pub open spec fn bool_rule(s: Seq<char>) -> Parsed<Json> {
    if starts_with(s, "true"@) {
        Ok((s.skip("true"@.len() as int), Json::True))
    } else if starts_with(s, "false"@) {
        Ok((s.skip("false"@.len() as int), Json::False))
    } else {
        Err(JSONParseError::NotFound)
    }
}

pub open spec fn is_digit(c: char) -> bool {
    '0' <= c <= '9'
}

pub open spec fn is_onenine(c: char) -> bool {
    '1' <= c <= '9'
}

/// One digit from `1` to `9`.
pub open spec fn onenine_rule(s: Seq<char>) -> Parsed<char> {
    if s.len() > 0 && is_onenine(s[0]) {
        Ok((s.skip(1), s[0]))
    } else {
        Err(JSONParseError::NotFound)
    }
}

/// One digit.
pub open spec fn digit_rule(s: Seq<char>) -> Parsed<char> {
    if s.len() > 0 && is_digit(s[0]) {
        Ok((s.skip(1), s[0]))
    } else {
        Err(JSONParseError::NotFound)
    }
}

/// How many digits stand at the start of `s`.
pub open spec fn leading_digits(s: Seq<char>) -> nat
    decreases s.len(),
{
    if s.len() > 0 && is_digit(s[0]) {
        1 + leading_digits(s.skip(1))
    } else {
        0
    }
}

/// One or more digits, as many as there are.
pub open spec fn digits_rule(s: Seq<char>) -> Parsed<Seq<char>> {
    let n = leading_digits(s);
    if n == 0 {
        Err(JSONParseError::NotFound)
    } else {
        Ok((s.skip(n as int), s.take(n as int)))
    }
}

/// An optional `-`, then either `0` alone or a digit from `1` to `9` with
/// all the digits that follow it. Yields the sign and the digits.
pub open spec fn integer_rule(s: Seq<char>) -> Parsed<(bool, Seq<char>)> {
    let negative = starts_with_char(s, '-');
    let body = if negative {
        s.skip(1)
    } else {
        s
    };
    if body.len() > 0 && is_onenine(body[0]) {
        let n = leading_digits(body);
        Ok((body.skip(n as int), (negative, body.take(n as int))))
    } else if starts_with_char(body, '0') {
        Ok((body.skip(1), (negative, seq!['0'])))
    } else {
        Err(JSONParseError::NotFound)
    }
}

/// Nothing, or `.` and one or more digits. Yields the digits, none when
/// there is no `.`; a `.` without a digit is a failure.
pub open spec fn fraction_rule(s: Seq<char>) -> Parsed<Seq<char>> {
    if starts_with_char(s, '.') {
        digits_rule(s.skip(1))
    } else {
        Ok((s, Seq::empty()))
    }
}

/// Nothing, or `e` or `E`, an optional sign and one or more digits. Yields
/// the sign and the digits, none when there is no exponent; an exponent mark
/// without a digit is a failure.
pub open spec fn exponent_rule(s: Seq<char>) -> Parsed<(bool, Seq<char>)> {
    if starts_with_char(s, 'e') || starts_with_char(s, 'E') {
        let t = s.skip(1);
        let negative = starts_with_char(t, '-');
        let u = if negative || starts_with_char(t, '+') {
            t.skip(1)
        } else {
            t
        };
        match digits_rule(u) {
            Ok((rest, digits)) => Ok((rest, (negative, digits))),
            Err(e) => Err(e),
        }
    } else {
        Ok((s, (false, Seq::empty())))
    }
}

/// A number: integer, fraction and exponent in turn. A malformed fraction
/// or exponent fails the whole number.
pub open spec fn number_rule(s: Seq<char>) -> Parsed<Numeral> {
    match integer_rule(s) {
        Err(e) => Err(e),
        Ok((after_integer, (negative, integer))) => match fraction_rule(after_integer) {
            Err(e) => Err(e),
            Ok((after_fraction, fraction)) => match exponent_rule(after_fraction) {
                Err(e) => Err(e),
                Ok((rest, (exponent_negative, exponent))) => Ok(
                    (rest, Numeral { negative, integer, fraction, exponent_negative, exponent }),
                ),
            },
        },
    }
}

/// A number as a value.
pub open spec fn number_value_rule(s: Seq<char>) -> Parsed<Json> {
    match number_rule(s) {
        Ok((rest, numeral)) => Ok((rest, Json::Number(numeral))),
        Err(e) => Err(e),
    }
}

/// The character that `\` followed by `c` stands for, if `c` is one of the
/// supported escape letters.
pub open spec fn unescape(c: char) -> Option<char> {
    if c == '"' {
        Some('"')
    } else if c == '\\' {
        Some('\\')
    } else if c == '/' {
        Some('/')
    } else if c == 'b' {
        Some('\u{0008}')
    } else if c == 'f' {
        Some('\u{000c}')
    } else if c == 'n' {
        Some('\n')
    } else if c == 'r' {
        Some('\r')
    } else if c == 't' {
        Some('\t')
    } else {
        None
    }
}

/// How the scan of a string's inside ends.
pub enum StringScan {
    /// The closing quote was found: what follows it, and the decoded text.
    Closed { rest: Seq<char>, text: Seq<char> },
    /// The input ended first.
    Unterminated,
    /// A `\` was followed by an unsupported character; `after` is what
    /// follows that character.
    BadEscape { after: Seq<char> },
}

/// Puts `c` in front of the text of a scan that closed.
pub open spec fn scan_prepend(c: char, scan: StringScan) -> StringScan {
    match scan {
        StringScan::Closed { rest, text } => StringScan::Closed { rest, text: seq![c] + text },
        other => other,
    }
}

/// Scans the inside of a string, `s` being what follows the opening quote.
pub open spec fn scan_string(s: Seq<char>) -> StringScan
    decreases s.len(),
{
    if s.len() == 0 {
        StringScan::Unterminated
    } else if s[0] == '"' {
        StringScan::Closed { rest: s.skip(1), text: Seq::empty() }
    } else if s[0] == '\\' {
        if s.len() == 1 {
            StringScan::Unterminated
        } else {
            match unescape(s[1]) {
                Some(c) => scan_prepend(c, scan_string(s.skip(2))),
                None => StringScan::BadEscape { after: s.skip(2) },
            }
        }
    } else {
        scan_prepend(s[0], scan_string(s.skip(1)))
    }
}

/// A string: `"`, then characters and escapes up to the next unescaped `"`.
/// An unterminated string reports what was unread after the opening quote;
/// an unsupported escape reports what was unread after the offending
/// character.
pub open spec fn string_rule(s: Seq<char>) -> Parsed<Seq<char>> {
    if starts_with_char(s, '"') {
        match scan_string(s.skip(1)) {
            StringScan::Closed { rest, text } => Ok((rest, text)),
            StringScan::Unterminated => Err(JSONParseError::MissingClosing(remaining(s.skip(1)))),
            StringScan::BadEscape { after } => Err(JSONParseError::UnexpectedChar(remaining(after))),
        }
    } else {
        Err(JSONParseError::NotFound)
    }
}

/// A string as a value.
pub open spec fn string_value_rule(s: Seq<char>) -> Parsed<Json> {
    match string_rule(s) {
        Ok((rest, text)) => Ok((rest, Json::String(text))),
        Err(e) => Err(e),
    }
}

/// The rest of a closed string is shorter than what was scanned.
pub proof fn lemma_scan_string_shrinks(s: Seq<char>)
    ensures
        scan_string(s) matches StringScan::Closed { rest, .. } ==> rest.len() < s.len(),
        scan_string(s) matches StringScan::BadEscape { after } ==> after.len() < s.len(),
    decreases s.len(),
{
    if s.len() == 0 {
    } else if s[0] == '"' {
    } else if s[0] == '\\' {
        if s.len() > 1 && unescape(s[1]) is Some {
            lemma_scan_string_shrinks(s.skip(2));
        }
    } else {
        lemma_scan_string_shrinks(s.skip(1));
    }
}

/// Skipping whitespace never lengthens a text.
pub proof fn lemma_skip_whitespace_len(s: Seq<char>)
    ensures
        skip_whitespace(s).len() <= s.len(),
    decreases s.len(),
{
    if s.len() > 0 && is_whitespace(s[0]) {
        lemma_skip_whitespace_len(s.skip(1));
    }
}

/// Of two outcomes, the first unless it is `NotFound`.
pub open spec fn or_else<T>(first: Parsed<T>, second: Parsed<T>) -> Parsed<T> {
    if first == Err::<(Seq<char>, T), JSONParseError>(JSONParseError::NotFound) {
        second
    } else {
        first
    }
}

/// The failure to report for an item of a list: when an item is missing
/// after a comma, that is an unexpected character at the place where the item
/// should begin.
pub open spec fn item_failure(e: JSONParseError, s: Seq<char>, first: bool) -> JSONParseError {
    if !first && e is NotFound {
        JSONParseError::UnexpectedChar(remaining(skip_whitespace(s)))
    } else {
        e
    }
}

/// A value: the first of object, array, string, number, `true` or `false`,
/// and `null` that is found.
pub open spec fn value_rule(s: Seq<char>) -> Parsed<Json>
    decreases s.len(), 3nat,
{
    or_else(
        object_rule(s),
        or_else(
            array_rule(s),
            or_else(
                string_value_rule(s),
                or_else(number_value_rule(s), or_else(bool_rule(s), null_rule(s))),
            ),
        ),
    )
}

/// A value with whitespace before and after it.
pub open spec fn element_rule(s: Seq<char>) -> Parsed<Json>
    decreases s.len(), 4nat,
    via element_rule_terminates
{
    match value_rule(skip_whitespace(s)) {
        Ok((rest, v)) => Ok((skip_whitespace(rest), v)),
        Err(e) => Err(e),
    }
}

#[via_fn]
proof fn element_rule_terminates(s: Seq<char>) {
    lemma_skip_whitespace_len(s);
}

/// Elements separated by commas. `first` says that no comma came before
/// `s`. (A rule never yields a rest longer than its input, so the test on the
/// rest's length always holds.)
pub open spec fn elements_from(s: Seq<char>, first: bool) -> Parsed<Seq<Json>>
    decreases s.len(), 5nat,
{
    match element_rule(s) {
        Err(e) => Err(item_failure(e, s, first)),
        Ok((rest, v)) => if starts_with_char(rest, ',') && rest.len() <= s.len() {
            match elements_from(rest.skip(1), false) {
                Ok((end, more)) => Ok((end, seq![v] + more)),
                Err(e) => Err(e),
            }
        } else {
            Ok((rest, seq![v]))
        },
    }
}

/// One or more elements separated by commas.
pub open spec fn elements_rule(s: Seq<char>) -> Parsed<Seq<Json>> {
    elements_from(s, true)
}

/// An array: `[`, then `]` or elements and `]`.
pub open spec fn array_rule(s: Seq<char>) -> Parsed<Json>
    decreases s.len(), 2nat,
    via array_rule_terminates
{
    if starts_with_char(s, '[') {
        let inner = skip_whitespace(s.skip(1));
        if starts_with_char(inner, ']') {
            Ok((inner.skip(1), Json::Array(Seq::empty())))
        } else {
            match elements_from(inner, true) {
                Err(e) => Err(e),
                Ok((rest, items)) => if starts_with_char(rest, ']') {
                    Ok((rest.skip(1), Json::Array(items)))
                } else {
                    Err(JSONParseError::MissingClosing(remaining(rest)))
                },
            }
        }
    } else {
        Err(JSONParseError::NotFound)
    }
}

#[via_fn]
proof fn array_rule_terminates(s: Seq<char>) {
    if s.len() > 0 {
        lemma_skip_whitespace_len(s.skip(1));
    }
}

/// A member: a string, `:` and an element, with whitespace around the
/// string.
pub open spec fn member_rule(s: Seq<char>) -> Parsed<(Seq<char>, Json)>
    decreases s.len(), 5nat,
    via member_rule_terminates
{
    match string_rule(skip_whitespace(s)) {
        Err(e) => Err(e),
        Ok((after_key, key)) => {
            let colon = skip_whitespace(after_key);
            if starts_with_char(colon, ':') {
                match element_rule(colon.skip(1)) {
                    Ok((rest, v)) => Ok((rest, (key, v))),
                    Err(e) => Err(e),
                }
            } else {
                Err(JSONParseError::UnexpectedChar(remaining(colon)))
            }
        },
    }
}

#[via_fn]
proof fn member_rule_terminates(s: Seq<char>) {
    let key = skip_whitespace(s);
    lemma_skip_whitespace_len(s);
    if key.len() > 0 {
        lemma_scan_string_shrinks(key.skip(1));
    }
    if let Ok((after_key, _)) = string_rule(key) {
        lemma_skip_whitespace_len(after_key);
    }
}

/// Members separated by commas. `first` says that no comma came before `s`.
/// (A rule never yields a rest longer than its input, so the test on the
/// rest's length always holds.)
pub open spec fn members_from(s: Seq<char>, first: bool) -> Parsed<Seq<(Seq<char>, Json)>>
    decreases s.len(), 6nat,
{
    match member_rule(s) {
        Err(e) => Err(item_failure(e, s, first)),
        Ok((rest, m)) => if starts_with_char(rest, ',') && rest.len() <= s.len() {
            match members_from(rest.skip(1), false) {
                Ok((end, more)) => Ok((end, seq![m] + more)),
                Err(e) => Err(e),
            }
        } else {
            Ok((rest, seq![m]))
        },
    }
}

/// One or more members separated by commas.
pub open spec fn members_rule(s: Seq<char>) -> Parsed<Seq<(Seq<char>, Json)>> {
    members_from(s, true)
}

/// An object: `{`, then `}` or members and `}`. Of two members with the same
/// key the later one stays.
pub open spec fn object_rule(s: Seq<char>) -> Parsed<Json>
    decreases s.len(), 2nat,
    via object_rule_terminates
{
    if starts_with_char(s, '{') {
        let inner = skip_whitespace(s.skip(1));
        if starts_with_char(inner, '}') {
            Ok((inner.skip(1), Json::Object(Map::empty())))
        } else {
            match members_from(inner, true) {
                Err(e) => Err(e),
                Ok((rest, members)) => if starts_with_char(rest, '}') {
                    Ok((rest.skip(1), Json::Object(pairs_map(members))))
                } else {
                    Err(JSONParseError::MissingClosing(remaining(rest)))
                },
            }
        }
    } else {
        Err(JSONParseError::NotFound)
    }
}

#[via_fn]
proof fn object_rule_terminates(s: Seq<char>) {
    if s.len() > 0 {
        lemma_skip_whitespace_len(s.skip(1));
    }
}

/// A whole text: one element. What follows the element is not looked at.
pub open spec fn parse_rule(s: Seq<char>) -> Result<Json, JSONParseError> {
    match element_rule(s) {
        Ok((_, v)) => Ok(v),
        Err(e) => Err(e),
    }
}

} // verus!
