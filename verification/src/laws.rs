use crate::decimal::{decimal_digits, decimal_text, lemma_decimal_digits_shape};
use crate::diagnostic::{marks, position};
use crate::error::JSONParseError;
use crate::grammar::{
    array_rule, bool_rule, element_rule, elements_from, found, integer_rule, is_digit, is_whitespace, leading_digits, member_rule, members_from, not_found, null_rule,
    number_rule, number_value_rule, object_rule, parse_rule, remaining, scan_string,
    skip_whitespace, starts_with_char, string_rule, string_value_rule, unescape, value_rule,
    StringScan,
};
use crate::parser::parse_outcome;
use crate::progress::{is_tail_of, lemma_element_within, lemma_tail_bytes};
use crate::text::byte_len;
use crate::value::{Json, JSONValue, Numeral};
use vstd::prelude::*;

verus! {

/// The number that the integer `n` is read as: its sign, its digits, no
/// fraction and no exponent.
pub open spec fn integer_numeral(n: int) -> Numeral {
    Numeral {
        negative: n < 0,
        integer: decimal_digits(
            (if n < 0 {
                -n
            } else {
                n
            }) as nat,
        ),
        fraction: Seq::empty(),
        exponent_negative: false,
        exponent: Seq::empty(),
    }
}

/// Whether a number could go on with the first character of `tail`.
pub open spec fn continues_number(tail: Seq<char>) -> bool {
    tail.len() > 0 && (is_digit(tail[0]) || tail[0] == '.' || tail[0] == 'e' || tail[0] == 'E')
}

/// Whether `text` can stand between quotes as it is: it holds neither a
/// quote nor a backslash.
pub open spec fn is_plain(text: Seq<char>) -> bool {
    forall|i: int| 0 <= i < text.len() ==> text[i] != '"' && text[i] != '\\'
}

/// Whether `w` holds nothing but whitespace.
pub open spec fn is_blank(w: Seq<char>) -> bool {
    forall|i: int| 0 <= i < w.len() ==> is_whitespace(w[i])
}

/// Of the six kinds of value at most one applies to a text, so the order in
/// which they are tried decides nothing: a value is read as the one kind
/// that does not answer `NotFound`, and a failure of that kind is the
/// failure of the value.
pub proof fn law_alternatives_exclusive(s: Seq<char>)
    ensures
        object_rule(s) != not_found::<Json>() ==> value_rule(s) == object_rule(s),
        array_rule(s) != not_found::<Json>() ==> value_rule(s) == array_rule(s),
        string_value_rule(s) != not_found::<Json>() ==> value_rule(s) == string_value_rule(s),
        number_value_rule(s) != not_found::<Json>() ==> value_rule(s) == number_value_rule(s),
        bool_rule(s) != not_found::<Json>() ==> value_rule(s) == bool_rule(s),
        null_rule(s) != not_found::<Json>() ==> value_rule(s) == null_rule(s),
{
    reveal_strlit("null");
    reveal_strlit("true");
    reveal_strlit("false");
    if s.len() >= 4 {
        assert(s.take(4)[0] == s[0]);
    }
    if s.len() >= 5 {
        assert(s.take(5)[0] == s[0]);
    }
}

/// A keyword is read as its value and nothing but the keyword is consumed:
/// whatever follows it is left unread.
pub proof fn law_keywords(tail: Seq<char>)
    ensures
        value_rule("null"@ + tail) == found(tail, Json::Null),
        value_rule("true"@ + tail) == found(tail, Json::True),
        value_rule("false"@ + tail) == found(tail, Json::False),
{
    reveal_strlit("null");
    reveal_strlit("true");
    reveal_strlit("false");
    let n = "null"@ + tail;
    let t = "true"@ + tail;
    let f = "false"@ + tail;
    assert(n.take(4) =~= "null"@ && n.skip(4) =~= tail);
    assert(t.take(4) =~= "true"@ && t.skip(4) =~= tail);
    assert(f.take(5) =~= "false"@ && f.skip(5) =~= tail);
    law_alternatives_exclusive(n);
    law_alternatives_exclusive(t);
    law_alternatives_exclusive(f);
}

/// A text that is just a keyword parses to the keyword's value.
pub proof fn law_keyword_texts()
    ensures
        parse_rule("null"@) == Ok::<Json, JSONParseError>(Json::Null),
        parse_rule("true"@) == Ok::<Json, JSONParseError>(Json::True),
        parse_rule("false"@) == Ok::<Json, JSONParseError>(Json::False),
{
    reveal_strlit("null");
    reveal_strlit("true");
    reveal_strlit("false");
    let nothing = Seq::<char>::empty();
    law_keywords(nothing);
    assert("null"@ + nothing =~= "null"@);
    assert("true"@ + nothing =~= "true"@);
    assert("false"@ + nothing =~= "false"@);
}

/// A run of digits followed by something that is no digit is read whole.
pub proof fn lemma_leading_digits_run(digits: Seq<char>, tail: Seq<char>)
    requires
        forall|i: int| 0 <= i < digits.len() ==> is_digit(#[trigger] digits[i]),
        !(tail.len() > 0 && is_digit(tail[0])),
    ensures
        leading_digits(digits + tail) == digits.len(),
    decreases digits.len(),
{
    let s = digits + tail;
    if digits.len() == 0 {
        assert(s =~= tail);
    } else {
        assert(s[0] == digits[0]);
        assert(s.skip(1) =~= digits.skip(1) + tail);
        assert forall|i: int| 0 <= i < digits.skip(1).len() implies is_digit(
            #[trigger] digits.skip(1)[i],
        ) by {
            assert(digits.skip(1)[i] == digits[i + 1]);
        }
        lemma_leading_digits_run(digits.skip(1), tail);
    }
}

/// The decimal text of an integer is read as that integer: the sign is kept,
/// the digits are those of its magnitude, and there is neither fraction nor
/// exponent. What follows the text is left unread, provided a number could
/// not go on with it.
pub proof fn law_integers(n: int, tail: Seq<char>)
    requires
        !continues_number(tail),
    ensures
        number_rule(decimal_text(n) + tail) == found(tail, integer_numeral(n)),
        value_rule(decimal_text(n) + tail) == found(tail, Json::Number(integer_numeral(n))),
{
    let magnitude = (if n < 0 {
        -n
    } else {
        n
    }) as nat;
    let digits = decimal_digits(magnitude);
    let s = decimal_text(n) + tail;
    lemma_decimal_digits_shape(magnitude);
    lemma_leading_digits_run(digits, tail);
    let body = digits + tail;
    assert(body[0] == digits[0]);
    assert(body.take(digits.len() as int) =~= digits);
    assert(body.skip(digits.len() as int) =~= tail);
    if n < 0 {
        assert(s =~= seq!['-'] + body);
        assert(s[0] == '-');
        assert(s.skip(1) =~= body);
    } else {
        assert(s =~= body);
    }
    if magnitude == 0 {
        assert(body.skip(1) =~= tail);
    }
    assert(integer_rule(s) == found(tail, (n < 0, digits)));
    assert(number_rule(s) == found(tail, integer_numeral(n)));
    law_alternatives_exclusive(s);
}

/// The decimal text of an integer parses to that integer.
pub proof fn law_integer_texts(n: int)
    ensures
        parse_rule(decimal_text(n)) == Ok::<Json, JSONParseError>(Json::Number(integer_numeral(n))),
{
    let nothing = Seq::<char>::empty();
    let s = decimal_text(n);
    law_integers(n, nothing);
    assert(s + nothing =~= s);
    lemma_decimal_digits_shape(
        (if n < 0 {
            -n
        } else {
            n
        }) as nat,
    );
    assert(!is_whitespace(s[0]));
}

/// Text without quote and backslash, put between quotes, is read as itself.
pub proof fn law_plain_strings(text: Seq<char>, tail: Seq<char>)
    requires
        is_plain(text),
    ensures
        string_rule(seq!['"'] + text + seq!['"'] + tail) == found(tail, text),
{
    let s = seq!['"'] + text + seq!['"'] + tail;
    assert(s[0] == '"');
    assert(s.skip(1) =~= text + seq!['"'] + tail);
    lemma_scan_plain(text, tail);
}

proof fn lemma_scan_plain(text: Seq<char>, tail: Seq<char>)
    requires
        is_plain(text),
    ensures
        scan_string(text + seq!['"'] + tail) == (StringScan::Closed { rest: tail, text }),
    decreases text.len(),
{
    let s = text + seq!['"'] + tail;
    if text.len() == 0 {
        assert(s[0] == '"');
        assert(s.skip(1) =~= tail);
        assert(text =~= Seq::<char>::empty());
    } else {
        assert(s[0] == text[0]);
        assert(s.skip(1) =~= text.skip(1) + seq!['"'] + tail);
        assert(is_plain(text.skip(1))) by {
            assert forall|i: int| 0 <= i < text.skip(1).len() implies text.skip(1)[i] != '"'
                && text.skip(1)[i] != '\\' by {
                assert(text.skip(1)[i] == text[i + 1]);
            }
        }
        lemma_scan_plain(text.skip(1), tail);
        assert(seq![text[0]] + text.skip(1) =~= text);
    }
}

/// Inside a string a backslash and a supported letter are read as the one
/// character that the letter stands for, and the reading goes on behind
/// them; a character that is neither quote nor backslash is read as itself.
pub proof fn law_string_pieces(letter: char, s: Seq<char>)
    ensures
        unescape(letter) matches Some(c) ==> scan_string(seq!['\\', letter] + s) == (
        match scan_string(s) {
            StringScan::Closed { rest, text } => StringScan::Closed { rest, text: seq![c] + text },
            other => other,
        }),
        letter != '"' && letter != '\\' ==> scan_string(seq![letter] + s) == (match scan_string(s) {
            StringScan::Closed { rest, text } => StringScan::Closed {
                rest,
                text: seq![letter] + text,
            },
            other => other,
        }),
{
    let escaped = seq!['\\', letter] + s;
    assert(escaped.skip(2) =~= s);
    assert(escaped[1] == letter);
    let plain = seq![letter] + s;
    assert(plain.skip(1) =~= s);
}

/// Each supported escape, alone between quotes, is read as the character it
/// stands for.
pub proof fn law_escapes(letter: char, tail: Seq<char>)
    requires
        unescape(letter) is Some,
    ensures
        string_rule(seq!['"', '\\', letter, '"'] + tail) == found(tail, seq![unescape(letter)->0]),
{
    let s = seq!['"', '\\', letter, '"'] + tail;
    let inside = seq!['\\', letter] + (seq!['"'] + tail);
    assert(s.skip(1) =~= inside);
    law_string_pieces(letter, seq!['"'] + tail);
    assert((seq!['"'] + tail).skip(1) =~= tail);
    assert(seq![unescape(letter)->0] + Seq::<char>::empty() =~= seq![unescape(letter)->0]);
}

/// Whitespace in front of a text is skipped with the text's own.
pub proof fn lemma_skip_blank(w: Seq<char>, s: Seq<char>)
    requires
        is_blank(w),
    ensures
        skip_whitespace(w + s) == skip_whitespace(s),
    decreases w.len(),
{
    if w.len() == 0 {
        assert(w + s =~= s);
    } else {
        assert((w + s)[0] == w[0]);
        assert((w + s).skip(1) =~= w.skip(1) + s);
        assert(is_blank(w.skip(1))) by {
            assert forall|i: int| 0 <= i < w.skip(1).len() implies is_whitespace(w.skip(1)[i]) by {
                assert(w.skip(1)[i] == w[i + 1]);
            }
        }
        lemma_skip_blank(w.skip(1), s);
    }
}

/// Skipping whitespace twice is skipping it once.
pub proof fn law_skip_whitespace_idempotent(s: Seq<char>)
    ensures
        skip_whitespace(skip_whitespace(s)) == skip_whitespace(s),
    decreases s.len(),
{
    if s.len() > 0 && is_whitespace(s[0]) {
        law_skip_whitespace_idempotent(s.skip(1));
    }
}

/// Whitespace before a text changes nothing of what the text is read as, and
/// what an element leaves unread does not begin with whitespace.
pub proof fn law_whitespace(w: Seq<char>, s: Seq<char>)
    requires
        is_blank(w),
    ensures
        element_rule(w + s) == element_rule(s),
        parse_rule(w + s) == parse_rule(s),
        element_rule(s) matches Ok((rest, _)) ==> skip_whitespace(rest) == rest,
{
    lemma_skip_blank(w, s);
    if let Ok((rest, _)) = value_rule(skip_whitespace(s)) {
        law_skip_whitespace_idempotent(rest);
    }
}

/// Once a comma has been read, a list cannot end in `NotFound`: an item
/// that is missing behind the comma is a hard failure.
pub proof fn law_no_soft_failure_after_comma(s: Seq<char>)
    ensures
        elements_from(s, false) matches Err(e) ==> e.is_hard(),
        members_from(s, false) matches Err(e) ==> e.is_hard(),
    decreases s.len(),
{
    if let Ok((rest, _)) = element_rule(s) {
        if starts_with_char(rest, ',') && rest.len() <= s.len() {
            law_no_soft_failure_after_comma(rest.skip(1));
        }
    }
    if let Ok((rest, _)) = member_rule(s) {
        if starts_with_char(rest, ',') && rest.len() <= s.len() {
            law_no_soft_failure_after_comma(rest.skip(1));
        }
    }
}

/// A failure of a parse, unless it is `NotFound`, has a place in the text:
/// the unread bytes that it reports are those behind one of the text's
/// characters, or behind the last. No parse ends in `Error`: numbers are kept
/// as they are written, so no conversion can fail.
pub proof fn law_failures_have_places(s: Seq<char>)
    requires
        byte_len(s) <= usize::MAX,
    ensures
        parse_rule(s) matches Err(e) ==> e is NotFound || (e.spec_remaining() <= byte_len(s)
            && position(s, e.spec_remaining() as nat) is Some),
        parse_rule(s) matches Err(e) ==> !(e is Error),
{
    lemma_element_within(s);
    if let Err(e) = parse_rule(s) {
        if !(e is NotFound) {
            let t = choose|t: Seq<char>| #[trigger]
                is_tail_of(t, s) && e.spec_remaining() == remaining(t);
            lemma_tail_bytes(t, s);
            assert(marks(s, e.spec_remaining() as nat, s.len() - t.len()));
        }
    }
}

/// Two parses of one text end alike: with values of the same content, or
/// with the same failure.
pub proof fn law_deterministic(
    s: Seq<char>,
    a: Result<JSONValue, JSONParseError>,
    b: Result<JSONValue, JSONParseError>,
)
    requires
        parse_outcome(s, a),
        parse_outcome(s, b),
    ensures
        match (a, b) {
            (Ok(x), Ok(y)) => x@ == y@,
            (Err(e), Err(f)) => e == f,
            _ => false,
        },
{
}

} // verus!
