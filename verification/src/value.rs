use crate::text::same_text;
use vstd::prelude::*;

verus! {

/// A number as it was written: its sign and the digits of its integer,
/// fraction and exponent parts. Nothing is rounded; the value it denotes is
/// `sign * (integer + 0.fraction) * 10^exponent`.
#[derive(Debug, Clone, PartialEq, Eq)]
pub struct JSONNumber {
    /// Whether the literal began with `-`.
    pub negative: bool,
    /// The digits before the decimal point.
    pub integer: Vec<char>,
    /// The digits after the decimal point; empty when there is no fraction.
    pub fraction: Vec<char>,
    /// Whether the exponent was written with `-`.
    pub exponent_negative: bool,
    /// The digits of the exponent; empty when there is no exponent.
    pub exponent: Vec<char>,
}

/// A parsed JSON document.
#[derive(Debug, PartialEq)]
pub enum JSONValue {
    Null,
    True,
    False,
    Number(JSONNumber),
    String(String),
    /// The elements in source order.
    Array(Vec<JSONValue>),
    /// The members, each key once.
    Object(Vec<(String, JSONValue)>),
}

/// The mathematical content of a `JSONNumber`.
pub struct Numeral {
    pub negative: bool,
    pub integer: Seq<char>,
    pub fraction: Seq<char>,
    pub exponent_negative: bool,
    pub exponent: Seq<char>,
}

impl Numeral {
    /// Whether the parts are those of a number literal: the integer part is
    /// `0` or begins with a digit from `1` to `9`, and all parts hold digits
    /// only.
    pub open spec fn wf(self) -> bool {
        &&& self.integer.len() >= 1
        &&& self.integer.len() > 1 ==> self.integer[0] != '0'
        &&& forall|i: int| 0 <= i < self.integer.len() ==> '0' <= #[trigger] self.integer[i] <= '9'
        &&& forall|i: int| 0 <= i < self.fraction.len() ==> '0' <= #[trigger] self.fraction[i] <= '9'
        &&& forall|i: int| 0 <= i < self.exponent.len() ==> '0' <= #[trigger] self.exponent[i] <= '9'
        &&& self.exponent_negative ==> self.exponent.len() >= 1
    }
}

/// The mathematical content of a `JSONValue`: an object is a finite map, so
/// the order of its members is no part of it.
pub enum Json {
    Null,
    True,
    False,
    Number(Numeral),
    String(Seq<char>),
    Array(Seq<Json>),
    Object(Map<Seq<char>, Json>),
}

/// The map that a list of members denotes: a later member with the same key
/// replaces an earlier one.
pub open spec fn pairs_map(pairs: Seq<(Seq<char>, Json)>) -> Map<Seq<char>, Json>
    decreases pairs.len(),
{
    if pairs.len() == 0 {
        Map::empty()
    } else {
        pairs_map(pairs.drop_last()).insert(pairs.last().0, pairs.last().1)
    }
}

/// Whether no two entries of `pairs` have the same key.
pub open spec fn distinct_keys(pairs: Seq<(Seq<char>, Json)>) -> bool {
    forall|i: int, j: int|
        0 <= i < j < pairs.len() ==> (#[trigger] pairs[i]).0 != (#[trigger] pairs[j]).0
}

impl View for JSONNumber {
    type V = Numeral;

    open spec fn view(&self) -> Numeral {
        Numeral {
            negative: self.negative,
            integer: self.integer@,
            fraction: self.fraction@,
            exponent_negative: self.exponent_negative,
            exponent: self.exponent@,
        }
    }
}

/// The content of `v`.
pub open spec fn json_of(v: JSONValue) -> Json
    decreases v,
{
    match v {
        JSONValue::Null => Json::Null,
        JSONValue::True => Json::True,
        JSONValue::False => Json::False,
        JSONValue::Number(n) => Json::Number(n@),
        JSONValue::String(s) => Json::String(s@),
        JSONValue::Array(items) => Json::Array(items_view(items@)),
        JSONValue::Object(members) => Json::Object(pairs_map(members_view(members@))),
    }
}

/// The contents of a list of values, one by one.
pub open spec fn items_view(items: Seq<JSONValue>) -> Seq<Json>
    decreases items,
{
    Seq::new(
        items.len(),
        |i: int|
            if 0 <= i < items.len() {
                json_of(items[i])
            } else {
                Json::Null
            },
    )
}

/// The keys and contents of a list of members, one by one.
pub open spec fn members_view(members: Seq<(String, JSONValue)>) -> Seq<(Seq<char>, Json)>
    decreases members,
{
    Seq::new(
        members.len(),
        |i: int|
            if 0 <= i < members.len() {
                (members[i].0@, json_of(members[i].1))
            } else {
                (Seq::empty(), Json::Null)
            },
    )
}

impl View for JSONValue {
    type V = Json;

    open spec fn view(&self) -> Json {
        json_of(*self)
    }
}

/// Adding a member at the end of a list puts it into the map, over any
/// earlier member with its key.
pub proof fn lemma_pairs_map_push(pairs: Seq<(Seq<char>, Json)>, key: Seq<char>, content: Json)
    ensures
        pairs_map(pairs.push((key, content))) == pairs_map(pairs).insert(key, content),
{
    assert(pairs.push((key, content)).drop_last() =~= pairs);
}

/// The keys of the map are the keys of the list.
pub proof fn lemma_pairs_map_keys(pairs: Seq<(Seq<char>, Json)>, key: Seq<char>)
    ensures
        pairs_map(pairs).contains_key(key) <==> exists|i: int|
            0 <= i < pairs.len() && (#[trigger] pairs[i]).0 == key,
    decreases pairs.len(),
{
    if pairs.len() > 0 {
        let front = pairs.drop_last();
        lemma_pairs_map_keys(front, key);
        if pairs_map(pairs).contains_key(key) {
            if pairs.last().0 == key {
                assert(pairs[pairs.len() - 1].0 == key);
            } else {
                let i = choose|i: int| 0 <= i < front.len() && (#[trigger] front[i]).0 == key;
                assert(pairs[i].0 == key);
            }
        }
        if exists|i: int| 0 <= i < pairs.len() && (#[trigger] pairs[i]).0 == key {
            let i = choose|i: int| 0 <= i < pairs.len() && (#[trigger] pairs[i]).0 == key;
            if i < pairs.len() - 1 {
                assert(front[i].0 == key);
            }
        }
    }
}

/// The map gives each key the content of the last member that has it.
pub proof fn lemma_pairs_map_last(pairs: Seq<(Seq<char>, Json)>, i: int)
    requires
        0 <= i < pairs.len(),
        forall|j: int| i < j < pairs.len() ==> (#[trigger] pairs[j]).0 != pairs[i].0,
    ensures
        pairs_map(pairs).contains_key(pairs[i].0),
        pairs_map(pairs)[pairs[i].0] == pairs[i].1,
    decreases pairs.len(),
{
    if i < pairs.len() - 1 {
        let front = pairs.drop_last();
        assert(pairs[pairs.len() - 1].0 != pairs[i].0);
        assert forall|j: int| i < j < front.len() implies (#[trigger] front[j]).0 != front[i].0 by {
            assert(pairs[j].0 != pairs[i].0);
        }
        lemma_pairs_map_last(front, i);
    }
}

/// In a list without a repeated key, giving one member a new content is
/// putting that content into the map under the member's key.
pub proof fn lemma_pairs_map_replace(pairs: Seq<(Seq<char>, Json)>, i: int, content: Json)
    requires
        distinct_keys(pairs),
        0 <= i < pairs.len(),
    ensures
        distinct_keys(pairs.update(i, (pairs[i].0, content))),
        pairs_map(pairs.update(i, (pairs[i].0, content))) == pairs_map(pairs).insert(
            pairs[i].0,
            content,
        ),
    decreases pairs.len(),
{
    let key = pairs[i].0;
    let changed = pairs.update(i, (key, content));
    let front = pairs.drop_last();
    assert forall|a: int, b: int| 0 <= a < b < changed.len() implies (#[trigger] changed[a]).0 != (
    #[trigger] changed[b]).0 by {
        assert(pairs[a].0 != pairs[b].0);
    }
    if i == pairs.len() - 1 {
        assert(changed.drop_last() =~= front);
        assert(pairs_map(front).insert(key, content) =~= pairs_map(front).insert(
            key,
            pairs[i].1,
        ).insert(key, content));
    } else {
        assert forall|a: int, b: int| 0 <= a < b < front.len() implies (#[trigger] front[a]).0 != (
        #[trigger] front[b]).0 by {
            assert(pairs[a].0 != pairs[b].0);
        }
        lemma_pairs_map_replace(front, i, content);
        assert(changed.drop_last() =~= front.update(i, (key, content)));
        assert(pairs[i].0 != pairs[pairs.len() - 1].0);
        assert(pairs_map(front).insert(key, content).insert(pairs.last().0, pairs.last().1)
            =~= pairs_map(front).insert(pairs.last().0, pairs.last().1).insert(key, content));
    }
}

/// Puts a member into the list of an object, in place of the member that
/// has `key` if there is one.
#[verifier::loop_isolation(false)]
pub fn insert_member(members: &mut Vec<(String, JSONValue)>, key: String, value: JSONValue)
    requires
        distinct_keys(members_view(old(members)@)),
    ensures
        distinct_keys(members_view(final(members)@)),
        pairs_map(members_view(final(members)@)) == pairs_map(members_view(old(members)@)).insert(
            key@,
            value@,
        ),
        (forall|i: int| 0 <= i < old(members)@.len() ==> (#[trigger] old(members)@[i]).1.wf())
            && value.wf() ==> forall|i: int|
            0 <= i < final(members)@.len() ==> (#[trigger] final(members)@[i]).1.wf(),
{
    let ghost before = members@;
    let mut i: usize = 0;
    while i < members.len()
        invariant
            i <= members@.len(),
            members@ == before,
            distinct_keys(members_view(before)),
            forall|j: int| 0 <= j < i ==> (#[trigger] members@[j]).0@ != key@,
        decreases members@.len() - i,
    {
        if members[i].0 == key {
            proof {
                assert(members_view(before)[i as int].0 == key@);
                lemma_pairs_map_replace(members_view(before), i as int, value@);
                assert(members_view(before.update(i as int, (key, value))) =~= members_view(
                    before,
                ).update(i as int, (key@, value@)));
            }
            members.set(i, (key, value));
            return ;
        }
        i += 1;
    }
    proof {
        lemma_pairs_map_push(members_view(before), key@, value@);
        assert(members_view(before.push((key, value))) =~= members_view(before).push(
            (key@, value@),
        ));
    }
    members.push((key, value));
}

impl JSONValue {
    /// Whether the value is one that a parse can give: every number in it,
    /// at any depth, has the parts of a number literal, and every object holds
    /// each of its keys once.
    pub open spec fn wf(self) -> bool
        decreases self,
    {
        match self {
            JSONValue::Number(n) => n@.wf(),
            JSONValue::Array(items) => forall|i: int|
                0 <= i < items@.len() ==> (#[trigger] items@[i]).wf(),
            JSONValue::Object(members) => {
                &&& distinct_keys(members_view(members@))
                &&& forall|i: int| 0 <= i < members@.len() ==> (#[trigger] members@[i]).1.wf()
            },
            _ => true,
        }
    }

    /// The content that an object holds under `key`. `None` when the value
    /// is no object or has no such member.
    #[verifier::loop_isolation(false)]
    pub fn get(&self, key: &str) -> (r: Option<&JSONValue>)
        ensures
            match r {
                Some(found) => self@ matches Json::Object(map) && map.contains_key(key@)
                    && found@ == map[key@],
                None => self@ matches Json::Object(map) ==> !map.contains_key(key@),
            },
    {
        match self {
            JSONValue::Object(members) => {
                let mut i: usize = members.len();
                while i > 0
                    invariant
                        i <= members@.len(),
                        forall|j: int| i <= j < members@.len() ==> (#[trigger] members@[j]).0@ != key@,
                    decreases i,
                {
                    i -= 1;
                    if same_text(members[i].0.as_str(), key) {
                        proof {
                            let pairs = members_view(members@);
                            assert forall|j: int| i < j < pairs.len() implies (#[trigger] pairs[j]).0
                                != pairs[i as int].0 by {
                                assert(members@[j].0@ != key@);
                            }
                            lemma_pairs_map_last(pairs, i as int);
                            assert(pairs[i as int] == (key@, members@[i as int].1@));
                        }
                        return Some(&members[i].1);
                    }
                }
                proof {
                    let pairs = members_view(members@);
                    lemma_pairs_map_keys(pairs, key@);
                    if pairs_map(pairs).contains_key(key@) {
                        let j = choose|j: int| 0 <= j < pairs.len() && (#[trigger] pairs[j]).0 == key@;
                        assert(members@[j].0@ != key@);
                    }
                }
                None
            },
            _ => None,
        }
    }
}

} // verus!
