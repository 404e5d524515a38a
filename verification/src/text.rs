use vstd::prelude::*;
use vstd::string::*;
use vstd::utf8::*;

verus! {

/// The number of bytes that `s` occupies in UTF-8.
pub open spec fn byte_len(s: Seq<char>) -> nat {
    encode_utf8(s).len()
}

/// The number of bytes of the UTF-8 encoding of `c`.
pub open spec fn char_width(c: char) -> nat {
    encode_scalar(c as u32).len()
}

/// Encoding distributes over the first character.
pub proof fn lemma_encode_first(s: Seq<char>)
    requires
        s.len() > 0,
    ensures
        encode_utf8(s) == encode_scalar(s[0] as u32) + encode_utf8(s.skip(1)),
        byte_len(s) == char_width(s[0]) + byte_len(s.skip(1)),
        1 <= char_width(s[0]) <= 4,
        encode_utf8(seq![s[0]]) == encode_scalar(s[0] as u32),
{
    assert(s.drop_first() == s.skip(1));
    let one = seq![s[0]];
    assert(one.drop_first() =~= Seq::<char>::empty());
    assert(encode_utf8(one.drop_first()) =~= Seq::<u8>::empty()) by {
        reveal_with_fuel(encode_utf8, 1);
    }
    assert(encode_utf8(one) =~= encode_scalar(s[0] as u32)) by {
        reveal_with_fuel(encode_utf8, 2);
    }
}

/// The encoding of two texts joined is their encodings joined.
pub proof fn lemma_encode_concat(a: Seq<char>, b: Seq<char>)
    ensures
        encode_utf8(a + b) == encode_utf8(a) + encode_utf8(b),
        byte_len(a + b) == byte_len(a) + byte_len(b),
    decreases a.len(),
{
    if a.len() == 0 {
        assert(a + b =~= b);
        assert(encode_utf8(a) + encode_utf8(b) =~= encode_utf8(b));
    } else {
        lemma_encode_concat(a.drop_first(), b);
        assert((a + b).drop_first() =~= a.drop_first() + b);
        assert((a + b)[0] == a[0]);
        assert(encode_utf8(a + b) =~= encode_utf8(a) + encode_utf8(b));
    }
}

/// A text has as many bytes as its two parts together, wherever it is cut.
pub proof fn lemma_byte_len_split(s: Seq<char>, k: int)
    requires
        0 <= k <= s.len(),
    ensures
        byte_len(s) == byte_len(s.take(k)) + byte_len(s.skip(k)),
{
    assert(s =~= s.take(k) + s.skip(k));
    lemma_encode_concat(s.take(k), s.skip(k));
}

/// The further a text is cut from the front, the fewer bytes are left, and
/// strictly so.
pub proof fn lemma_byte_len_skip(s: Seq<char>, q: int, p: int)
    requires
        0 <= q <= p <= s.len(),
    ensures
        byte_len(s.skip(p)) <= byte_len(s.skip(q)),
        q < p ==> byte_len(s.skip(p)) < byte_len(s.skip(q)),
{
    let t = s.skip(q);
    lemma_byte_len_split(t, p - q);
    assert(t.skip(p - q) =~= s.skip(p));
    if q < p {
        let cut = t.take(p - q);
        lemma_encode_first(cut);
    }
}

/// Two texts with the same UTF-8 encoding are the same text.
pub proof fn lemma_encode_injective(a: Seq<char>, b: Seq<char>)
    requires
        encode_utf8(a) == encode_utf8(b),
    ensures
        a == b,
{
    encode_utf8_decode_utf8(a);
    encode_utf8_decode_utf8(b);
}

/// Splits `s` into its first character, the slice that holds just that
/// character, and everything after it. `None` exactly when `s` is empty.
pub fn split_first<'a>(s: &'a str) -> (r: Option<(char, &'a str, &'a str)>)
    ensures
        r is None <==> s@.len() == 0,
        r matches Some((c, head, rest)) ==> c == s@[0] && head@ == seq![c] && rest@ == s@.skip(1),
{
    broadcast use group_string_axioms;

    let mut it = s.chars();
    match it.next() {
        None => None,
        Some(c) => {
            let v: u32 = c as u32;
            let w: usize = if v <= 0x7F {
                1
            } else if v <= 0x7FF {
                2
            } else if v <= 0xFFFF {
                3
            } else {
                4
            };
            proof {
                let chars = s@;
                let bytes = encode_utf8(chars);
                assert(c == chars[0]);
                char_is_scalar(c);
                lemma_encode_first(chars);
                encode_utf8_first_scalar(chars);
                encode_utf8_valid_utf8(chars);
                assert(w == char_width(c));
                assert(length_of_first_scalar(bytes) == w);
                assert(bytes.subrange(0, w as int) =~= encode_scalar(c as u32));
                assert(bytes.subrange(w as int, bytes.len() as int) =~= encode_utf8(chars.skip(1)));
                assert(pop_first_scalar(bytes) == encode_utf8(chars.skip(1)));
                encode_utf8_valid_utf8(chars.skip(1));
                assert(is_char_boundary(bytes, w as int)) by {
                    reveal_with_fuel(is_char_boundary, 2);
                }
            }
            let (head, rest) = s.split_at(w);
            proof {
                lemma_encode_injective(head@, seq![c]);
                lemma_encode_injective(rest@, s@.skip(1));
            }
            Some((c, head, rest))
        },
    }
}

/// The number of bytes of `s`.
pub fn byte_count(s: &str) -> (n: usize)
    ensures
        n == byte_len(s@),
{
    s.as_bytes().len()
}

/// Whether `a` and `b` are the same text.
pub fn same_text(a: &str, b: &str) -> (r: bool)
    ensures
        r == (a@ == b@),
{
    let x = a.as_bytes();
    let y = b.as_bytes();
    if x.len() != y.len() {
        return false;
    }
    let mut i: usize = 0;
    while i < x.len()
        invariant
            i <= x@.len(),
            x@.len() == y@.len(),
            x@ == encode_utf8(a@),
            y@ == encode_utf8(b@),
            forall|j: int| 0 <= j < i ==> x@[j] == y@[j],
        decreases x@.len() - i,
    {
        if x[i] != y[i] {
            return false;
        }
        i += 1;
    }
    proof {
        assert(x@ =~= y@);
        lemma_encode_injective(a@, b@);
    }
    true
}

/// Removes `c` from the start of `s`. `None` exactly when `s` does not begin
/// with `c`.
pub fn strip_char<'a>(s: &'a str, c: char) -> (r: Option<&'a str>)
    ensures
        r is Some <==> s@.len() > 0 && s@[0] == c,
        r matches Some(rest) ==> rest@ == s@.skip(1),
{
    match split_first(s) {
        Some((first, _, rest)) => if first == c {
            Some(rest)
        } else {
            None
        },
        None => None,
    }
}

/// Removes `word` from the start of `s`. `None` exactly when `s` does not
/// begin with `word`.
pub fn strip_prefix<'a>(s: &'a str, word: &str) -> (r: Option<&'a str>)
    ensures
        r is Some <==> word@.len() <= s@.len() && s@.take(word@.len() as int) == word@,
        r matches Some(rest) ==> rest@ == s@.skip(word@.len() as int),
{
    let mut cur = s;
    let mut left = word;
    let ghost mut k: int = 0;
    loop
        invariant
            0 <= k <= s@.len(),
            k <= word@.len(),
            cur@ == s@.skip(k),
            left@ == word@.skip(k),
            s@.take(k) == word@.take(k),
        decreases left@.len(),
    {
        match split_first(left) {
            None => {
                assert(word@.take(k) == word@);
                return Some(cur);
            },
            Some((expected, _, left_rest)) => {
                match split_first(cur) {
                    None => {
                        return None;
                    },
                    Some((found, _, cur_rest)) => {
                        assert(expected == word@[k]);
                        assert(found == s@[k]);
                        if found != expected {
                            proof {
                                if word@.len() <= s@.len() {
                                    assert(s@.take(word@.len() as int)[k] == s@[k]);
                                }
                            }
                            return None;
                        }
                        proof {
                            assert(s@.take(k + 1) =~= s@.take(k).push(s@[k]));
                            assert(word@.take(k + 1) =~= word@.take(k).push(word@[k]));
                            assert(cur_rest@ =~= s@.skip(k + 1));
                            assert(left_rest@ =~= word@.skip(k + 1));
                            k = k + 1;
                        }
                        cur = cur_rest;
                        left = left_rest;
                    },
                }
            },
        }
    }
}

} // verus!
