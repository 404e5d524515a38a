use crate::error::JSONParseError;
use crate::grammar::{
    agrees, scan_prepend, scan_string, string_rule, string_value_rule, unescape, StringScan,
};
use crate::text::{split_first, strip_char};
use crate::value::JSONValue;
use vstd::prelude::*;
use vstd::string::*;

verus! {

/// Puts `prefix` in front of the text of a scan that closed.
pub open spec fn scan_after(prefix: Seq<char>, scan: StringScan) -> StringScan {
    match scan {
        StringScan::Closed { rest, text } => StringScan::Closed { rest, text: prefix + text },
        other => other,
    }
}

proof fn lemma_scan_after_empty(scan: StringScan)
    ensures
        scan_after(Seq::empty(), scan) == scan,
{
    if let StringScan::Closed { rest, text } = scan {
        assert(Seq::<char>::empty() + text =~= text);
    }
}

proof fn lemma_scan_after_push(prefix: Seq<char>, c: char, scan: StringScan)
    ensures
        scan_after(prefix, scan_prepend(c, scan)) == scan_after(prefix.push(c), scan),
{
    if let StringScan::Closed { rest, text } = scan {
        assert(prefix + (seq![c] + text) =~= prefix.push(c) + text);
    }
}

/// The text that `\` followed by `c` stands for, if `c` is a supported
/// escape letter.
fn escape_text(c: char) -> (r: Option<&'static str>)
    ensures
        match unescape(c) {
            Some(d) => r matches Some(t) && t@ == seq![d],
            None => r is None,
        },
{
    proof {
        reveal_strlit("\"");
        reveal_strlit("\\");
        reveal_strlit("/");
        reveal_strlit("\u{0008}");
        reveal_strlit("\u{000c}");
        reveal_strlit("\n");
        reveal_strlit("\r");
        reveal_strlit("\t");
    }
    let r = if c == '"' {
        Some("\"")
    } else if c == '\\' {
        Some("\\")
    } else if c == '/' {
        Some("/")
    } else if c == 'b' {
        Some("\u{0008}")
    } else if c == 'f' {
        Some("\u{000c}")
    } else if c == 'n' {
        Some("\n")
    } else if c == 'r' {
        Some("\r")
    } else if c == 't' {
        Some("\t")
    } else {
        None
    };
    proof {
        if let Some(t) = r {
            assert(t@ =~= seq![unescape(c)->0]);
        }
    }
    r
}

/// Parses a string at the start of `src` and decodes its escapes. The
/// escapes are `\"`, `\\`, `\/`, `\b`, `\f`, `\n`, `\r` and `\t`; `\u` with four
/// hex digits is not among them and fails as an unexpected character.
pub fn quoted(src: &str) -> (r: Result<(&str, String), JSONParseError>)
    ensures
        agrees(r, string_rule(src@)),
{
    let body = match strip_char(src, '"') {
        Some(body) => body,
        None => {
            return Err(JSONParseError::NotFound);
        },
    };
    let mut out = String::new();
    let mut cur = body;
    proof {
        lemma_scan_after_empty(scan_string(body@));
    }
    loop
        invariant
            body@ == src@.skip(1),
            src@.len() > 0 && src@[0] == '"',
            scan_string(body@) == scan_after(out@, scan_string(cur@)),
        decreases cur@.len(),
    {
        match split_first(cur) {
            None => {
                return Err(JSONParseError::MissingClosing(body.len()));
            },
            Some((c, piece, rest)) => {
                if c == '"' {
                    proof {
                        assert(out@ + Seq::<char>::empty() =~= out@);
                    }
                    return Ok((rest, out));
                } else if c == '\\' {
                    match split_first(rest) {
                        None => {
                            return Err(JSONParseError::MissingClosing(body.len()));
                        },
                        Some((letter, _, after)) => {
                            proof {
                                assert(after@ =~= cur@.skip(2));
                                assert(letter == cur@[1]);
                            }
                            match escape_text(letter) {
                                Some(decoded) => {
                                    proof {
                                        lemma_scan_after_push(
                                            out@,
                                            decoded@[0],
                                            scan_string(after@),
                                        );
                                        assert(out@ + decoded@ =~= out@.push(decoded@[0]));
                                    }
                                    out.append(decoded);
                                    cur = after;
                                },
                                None => {
                                    return Err(JSONParseError::UnexpectedChar(after.len()));
                                },
                            }
                        },
                    }
                } else {
                    proof {
                        lemma_scan_after_push(out@, c, scan_string(rest@));
                        assert(out@ + piece@ =~= out@.push(c));
                    }
                    out.append(piece);
                    cur = rest;
                }
            },
        }
    }
}

/// Parses a string value at the start of `src`.
pub fn string(src: &str) -> (r: Result<(&str, JSONValue), JSONParseError>)
    ensures
        agrees(r, string_value_rule(src@)),
{
    match quoted(src) {
        Ok((rest, text)) => Ok((rest, JSONValue::String(text))),
        Err(e) => Err(e),
    }
}

} // verus!
