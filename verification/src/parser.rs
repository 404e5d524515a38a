use crate::error::JSONParseError;
use crate::grammar::{
    agrees, array_rule, element_rule, elements_from, elements_rule, member_rule, members_from,
    members_rule, object_rule, parse_rule, value_rule, Parsed,
};
use crate::literal::{bool, null, ws};
use crate::number::number;
use crate::progress::{
    lemma_element_within, lemma_member_within, lemma_skip_whitespace_tail, lemma_string_within,
};
use crate::strings::{quoted, string};
use crate::text::strip_char;
use crate::value::{
    distinct_keys, insert_member, items_view, lemma_pairs_map_push, members_view, pairs_map, Json,
    JSONValue,
};
use vstd::prelude::*;

verus! {

/// Whether every value of the list is well formed.
pub open spec fn all_wf(items: Seq<JSONValue>) -> bool {
    forall|i: int| 0 <= i < items.len() ==> (#[trigger] items[i]).wf()
}

/// Whether the value of every member of the list is well formed.
pub open spec fn all_members_wf(members: Seq<(String, JSONValue)>) -> bool {
    forall|i: int| 0 <= i < members.len() ==> (#[trigger] members[i]).1.wf()
}

/// Whether the outcome `r` of a list rule is the one that `expected`
/// describes: the same rest and values with the same contents in the same
/// order, or the same failure.
pub open spec fn agrees_items(
    r: Result<(&str, Vec<JSONValue>), JSONParseError>,
    expected: Parsed<Seq<Json>>,
) -> bool {
    match expected {
        Ok((rest, items)) => r matches Ok((out, found)) && out@ == rest && items_view(found@)
            == items,
        Err(e) => r matches Err(f) && f == e,
    }
}

/// Whether the outcome `r` of a member-list rule is the one that `expected`
/// describes: the same rest and members with the same keys and contents in
/// the same order, or the same failure.
pub open spec fn agrees_members(
    r: Result<(&str, Vec<(String, JSONValue)>), JSONParseError>,
    expected: Parsed<Seq<(Seq<char>, Json)>>,
) -> bool {
    match expected {
        Ok((rest, members)) => r matches Ok((out, found)) && out@ == rest && members_view(found@)
            == members,
        Err(e) => r matches Err(f) && f == e,
    }
}

/// Whether `r` is what a parse of the text `s` has to return: a well-formed
/// value with the content that the grammar gives `s`, or the failure that
/// the grammar gives it.
pub open spec fn parse_outcome(s: Seq<char>, r: Result<JSONValue, JSONParseError>) -> bool {
    match parse_rule(s) {
        Ok(content) => r matches Ok(v) && v@ == content && v.wf(),
        Err(e) => r matches Err(f) && f == e,
    }
}

/// Puts `front` before the list of an outcome that is a success.
pub open spec fn list_after<T>(front: Seq<T>, outcome: Parsed<Seq<T>>) -> Parsed<Seq<T>> {
    match outcome {
        Ok((rest, more)) => Ok((rest, front + more)),
        Err(e) => Err(e),
    }
}

proof fn lemma_list_after_empty<T>(outcome: Parsed<Seq<T>>)
    ensures
        list_after(Seq::empty(), outcome) == outcome,
{
    if let Ok((rest, more)) = outcome {
        assert(Seq::<T>::empty() + more =~= more);
    }
}

proof fn lemma_list_after_push<T>(front: Seq<T>, item: T, outcome: Parsed<Seq<T>>)
    ensures
        list_after(front, list_after(seq![item], outcome)) == list_after(front.push(item), outcome),
        list_after(front, Ok((arbitrary(), seq![item]))) matches Ok((_, all)) && all == front.push(
            item,
        ),
{
    if let Ok((rest, more)) = outcome {
        assert(front + (seq![item] + more) =~= front.push(item) + more);
    }
    assert(front + seq![item] =~= front.push(item));
}

/// Parses a value at the start of `src`: an object, an array, a string, a
/// number, `true` or `false`, or `null`, whichever is found first.
pub fn value(src: &str) -> (r: Result<(&str, JSONValue), JSONParseError>)
    ensures
        agrees(r, value_rule(src@)),
        r matches Ok((_, v)) ==> v.wf(),
    decreases src@.len(), 3nat,
{
    match object(src) {
        Ok(found) => {
            return Ok(found);
        },
        Err(JSONParseError::NotFound) => {},
        Err(e) => {
            return Err(e);
        },
    }
    match array(src) {
        Ok(found) => {
            return Ok(found);
        },
        Err(JSONParseError::NotFound) => {},
        Err(e) => {
            return Err(e);
        },
    }
    match string(src) {
        Ok(found) => {
            return Ok(found);
        },
        Err(JSONParseError::NotFound) => {},
        Err(e) => {
            return Err(e);
        },
    }
    match number(src) {
        Ok(found) => {
            return Ok(found);
        },
        Err(JSONParseError::NotFound) => {},
        Err(e) => {
            return Err(e);
        },
    }
    match bool(src) {
        Ok(found) => {
            return Ok(found);
        },
        Err(JSONParseError::NotFound) => {},
        Err(e) => {
            return Err(e);
        },
    }
    null(src)
}

/// Parses a value with whitespace before and after it.
pub fn element(src: &str) -> (r: Result<(&str, JSONValue), JSONParseError>)
    ensures
        agrees(r, element_rule(src@)),
        r matches Ok((_, v)) ==> v.wf(),
    decreases src@.len(), 4nat,
{
    let trimmed = ws(src);
    proof {
        lemma_skip_whitespace_tail(src@);
    }
    match value(trimmed) {
        Ok((rest, v)) => Ok((ws(rest), v)),
        Err(e) => Err(e),
    }
}

/// Parses one or more elements separated by commas. An element that is
/// missing after a comma is an unexpected character.
pub fn elements(src: &str) -> (r: Result<(&str, Vec<JSONValue>), JSONParseError>)
    ensures
        agrees_items(r, elements_rule(src@)),
        r matches Ok((_, found)) ==> all_wf(found@),
    decreases src@.len(), 5nat,
{
    let mut values: Vec<JSONValue> = Vec::new();
    let mut cur = src;
    let mut first = true;
    proof {
        lemma_list_after_empty(elements_from(src@, true));
        assert(items_view(values@) =~= Seq::<Json>::empty());
    }
    loop
        invariant
            cur@.len() <= src@.len(),
            all_wf(values@),
            elements_rule(src@) == list_after(items_view(values@), elements_from(cur@, first)),
        decreases cur@.len(),
    {
        match element(cur) {
            Ok((rest, v)) => {
                proof {
                    lemma_element_within(cur@);
                    assert(items_view(values@.push(v)) =~= items_view(values@).push(v@));
                    lemma_list_after_push(
                        items_view(values@),
                        v@,
                        elements_from(rest@.skip(1), false),
                    );
                }
                values.push(v);
                match strip_char(rest, ',') {
                    Some(after) => {
                        cur = after;
                        first = false;
                    },
                    None => {
                        return Ok((rest, values));
                    },
                }
            },
            Err(e) => {
                if first {
                    return Err(e);
                }
                match e {
                    JSONParseError::NotFound => {
                        return Err(JSONParseError::UnexpectedChar(ws(cur).len()));
                    },
                    _ => {
                        return Err(e);
                    },
                }
            },
        }
    }
}

/// Parses an array at the start of `src`.
pub fn array(src: &str) -> (r: Result<(&str, JSONValue), JSONParseError>)
    ensures
        agrees(r, array_rule(src@)),
        r matches Ok((_, v)) ==> v.wf(),
    decreases src@.len(), 2nat,
{
    let inner = match strip_char(src, '[') {
        Some(rest) => ws(rest),
        None => {
            return Err(JSONParseError::NotFound);
        },
    };
    proof {
        lemma_skip_whitespace_tail(src@.skip(1));
    }
    if let Some(rest) = strip_char(inner, ']') {
        let empty: Vec<JSONValue> = Vec::new();
        assert(items_view(empty@) =~= Seq::<Json>::empty());
        return Ok((rest, JSONValue::Array(empty)));
    }
    match elements(inner) {
        Ok((rest, found)) => match strip_char(rest, ']') {
            Some(after) => Ok((after, JSONValue::Array(found))),
            None => Err(JSONParseError::MissingClosing(rest.len())),
        },
        Err(e) => Err(e),
    }
}

/// Parses a member: a string, `:` and an element.
pub fn member(src: &str) -> (r: Result<(&str, (String, JSONValue)), JSONParseError>)
    ensures
        agrees(r, member_rule(src@)),
        r matches Ok((_, found)) ==> found.1.wf(),
    decreases src@.len(), 5nat,
{
    let trimmed = ws(src);
    match quoted(trimmed) {
        Ok((after_key, key)) => {
            let colon = ws(after_key);
            proof {
                lemma_skip_whitespace_tail(src@);
                lemma_string_within(trimmed@);
                lemma_skip_whitespace_tail(after_key@);
            }
            match strip_char(colon, ':') {
                Some(after) => match element(after) {
                    Ok((rest, v)) => Ok((rest, (key, v))),
                    Err(e) => Err(e),
                },
                None => Err(JSONParseError::UnexpectedChar(colon.len())),
            }
        },
        Err(e) => Err(e),
    }
}

/// Parses one or more members separated by commas, in the order in which
/// they stand. A member that is missing after a comma is an unexpected
/// character.
pub fn members(src: &str) -> (r: Result<(&str, Vec<(String, JSONValue)>), JSONParseError>)
    ensures
        agrees_members(r, members_rule(src@)),
        r matches Ok((_, found)) ==> all_members_wf(found@),
    decreases src@.len(), 6nat,
{
    let mut values: Vec<(String, JSONValue)> = Vec::new();
    let mut cur = src;
    let mut first = true;
    proof {
        lemma_list_after_empty(members_from(src@, true));
        assert(members_view(values@) =~= Seq::<(Seq<char>, Json)>::empty());
    }
    loop
        invariant
            cur@.len() <= src@.len(),
            all_members_wf(values@),
            members_rule(src@) == list_after(members_view(values@), members_from(cur@, first)),
        decreases cur@.len(),
    {
        match member(cur) {
            Ok((rest, m)) => {
                proof {
                    lemma_member_within(cur@);
                    assert(members_view(values@.push(m)) =~= members_view(values@).push(m@));
                    lemma_list_after_push(
                        members_view(values@),
                        m@,
                        members_from(rest@.skip(1), false),
                    );
                }
                values.push(m);
                match strip_char(rest, ',') {
                    Some(after) => {
                        cur = after;
                        first = false;
                    },
                    None => {
                        return Ok((rest, values));
                    },
                }
            },
            Err(e) => {
                if first {
                    return Err(e);
                }
                match e {
                    JSONParseError::NotFound => {
                        return Err(JSONParseError::UnexpectedChar(ws(cur).len()));
                    },
                    _ => {
                        return Err(e);
                    },
                }
            },
        }
    }
}

/// Parses an object at the start of `src`. Of two members with the same key
/// the later one stays.
pub fn object(src: &str) -> (r: Result<(&str, JSONValue), JSONParseError>)
    ensures
        agrees(r, object_rule(src@)),
        r matches Ok((_, v)) ==> v.wf(),
    decreases src@.len(), 2nat,
{
    let inner = match strip_char(src, '{') {
        Some(rest) => ws(rest),
        None => {
            return Err(JSONParseError::NotFound);
        },
    };
    proof {
        lemma_skip_whitespace_tail(src@.skip(1));
    }
    if let Some(rest) = strip_char(inner, '}') {
        let empty: Vec<(String, JSONValue)> = Vec::new();
        assert(members_view(empty@) =~= Seq::<(Seq<char>, Json)>::empty());
        return Ok((rest, JSONValue::Object(empty)));
    }
    match members(inner) {
        Ok((rest, found)) => match strip_char(rest, '}') {
            Some(after) => Ok((after, JSONValue::Object(unique_members(found)))),
            None => Err(JSONParseError::MissingClosing(rest.len())),
        },
        Err(e) => Err(e),
    }
}

/// Keeps one member for each key of `found`, with the value of the last
/// member that has the key.
pub fn unique_members(found: Vec<(String, JSONValue)>) -> (kept: Vec<(String, JSONValue)>)
    ensures
        distinct_keys(members_view(kept@)),
        pairs_map(members_view(kept@)) == pairs_map(members_view(found@)),
        all_members_wf(found@) ==> all_members_wf(kept@),
{
    let ghost all = found@;
    let mut kept: Vec<(String, JSONValue)> = Vec::new();
    proof {
        assert(members_view(kept@) =~= Seq::<(Seq<char>, Json)>::empty());
        assert(members_view(all.take(0)) =~= Seq::<(Seq<char>, Json)>::empty());
    }
    for m in it: found
        invariant
            it.seq() == all,
            distinct_keys(members_view(kept@)),
            pairs_map(members_view(kept@)) == pairs_map(members_view(all.take(it.index() as int))),
            all_members_wf(all) ==> all_members_wf(kept@),
    {
        proof {
            let n = it.index() as int;
            assert(all.take(n + 1) =~= all.take(n).push(m));
            assert(members_view(all.take(n).push(m)) =~= members_view(all.take(n)).push(m@));
            lemma_pairs_map_push(members_view(all.take(n)), m.0@, m.1@);
        }
        let (key, value) = m;
        insert_member(&mut kept, key, value);
    }
    proof {
        assert(all.take(all.len() as int) =~= all);
    }
    kept
}

/// Parses a JSON text: one value with whitespace around it. What follows
/// the value is not looked at.
///
/// Arrays and objects are parsed by recursion, one call deep for each level
/// of nesting: how deep a text may nest is bounded by the stack, not by this
/// function.
pub fn parse(src: &str) -> (r: Result<JSONValue, JSONParseError>)
    ensures
        parse_outcome(src@, r),
{
    match element(src) {
        Ok((_, v)) => Ok(v),
        Err(e) => Err(e),
    }
}

} // verus!
