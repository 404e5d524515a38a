use crate::error::JSONParseError;
use crate::grammar::{agrees, bool_rule, null_rule, skip_whitespace};
use crate::text::{split_first, strip_prefix};
use crate::value::JSONValue;
use vstd::prelude::*;

verus! {

/// Strips the leading whitespace of `src`.
pub fn ws(src: &str) -> (rest: &str)
    ensures
        rest@ == skip_whitespace(src@),
{
    let mut cur = src;
    loop
        invariant
            skip_whitespace(cur@) == skip_whitespace(src@),
        ensures
            cur@ == skip_whitespace(src@),
        decreases cur@.len(),
    {
        match split_first(cur) {
            Some((c, _, rest)) => {
                if c == ' ' || c == '\n' || c == '\t' || c == '\r' {
                    cur = rest;
                } else {
                    break ;
                }
            },
            None => {
                break ;
            },
        }
    }
    cur
}

/// Matches the keyword `true` or `false` at the start of `src`.
pub fn bool(src: &str) -> (r: Result<(&str, JSONValue), JSONParseError>)
    ensures
        agrees(r, bool_rule(src@)),
{
    match strip_prefix(src, "true") {
        Some(rest) => Ok((rest, JSONValue::True)),
        None => match strip_prefix(src, "false") {
            Some(rest) => Ok((rest, JSONValue::False)),
            None => Err(JSONParseError::NotFound),
        },
    }
}

/// Matches the keyword `null` at the start of `src`.
pub fn null(src: &str) -> (r: Result<(&str, JSONValue), JSONParseError>)
    ensures
        agrees(r, null_rule(src@)),
{
    match strip_prefix(src, "null") {
        Some(rest) => Ok((rest, JSONValue::Null)),
        None => Err(JSONParseError::NotFound),
    }
}

} // verus!
