use crate::decimal::{decimal, decimal_digits};
use crate::error::JSONParseError;
use crate::text::{byte_count, byte_len, lemma_byte_len_skip, lemma_encode_first, split_first};
use vstd::prelude::*;
use vstd::string::*;

verus! {

/// Whether the character index `p` of `s` is the place that a failure with
/// `remaining` unread bytes points at.
pub open spec fn marks(s: Seq<char>, remaining: nat, p: int) -> bool {
    0 <= p <= s.len() && byte_len(s.skip(p)) == remaining
}

/// The character index that a failure with `remaining` unread bytes points
/// at, if there is one.
pub open spec fn position(s: Seq<char>, remaining: nat) -> Option<int> {
    if exists|p: int| marks(s, remaining, p) {
        Some(choose|p: int| marks(s, remaining, p))
    } else {
        None
    }
}

/// Where the line begins that holds the index `p`.
pub open spec fn line_start(s: Seq<char>, p: int) -> int
    decreases p,
{
    if p <= 0 {
        0
    } else if s[p - 1] == '\n' {
        p
    } else {
        line_start(s, p - 1)
    }
}

/// Where the line ends that holds the index `p`: at the next line feed or at
/// the end of the text.
pub open spec fn line_end(s: Seq<char>, p: int) -> int
    decreases s.len() - p,
{
    if p >= s.len() {
        s.len() as int
    } else if s[p] == '\n' {
        p
    } else {
        line_end(s, p + 1)
    }
}

/// How many line feeds `s` holds.
pub open spec fn newlines(s: Seq<char>) -> nat
    decreases s.len(),
{
    if s.len() == 0 {
        0
    } else {
        newlines(s.drop_last()) + if s.last() == '\n' {
            1nat
        } else {
            0nat
        }
    }
}

/// A place in a text, as a reader sees it.
pub struct Place {
    /// The number of the line, from 1.
    pub line: nat,
    /// The bytes of the line that stand before the place.
    pub column: nat,
    /// The line before, empty for the first line.
    pub previous_line: Seq<char>,
    /// The line that holds the place.
    pub error_line: Seq<char>,
}

/// The place of the character index `p` of `s`.
pub open spec fn place_of(s: Seq<char>, p: int) -> Place {
    let start = line_start(s, p);
    Place {
        line: newlines(s.take(p)) + 1,
        column: byte_len(s.subrange(start, p)),
        previous_line: if start == 0 {
            Seq::empty()
        } else {
            s.subrange(line_start(s, start - 1), start - 1)
        },
        error_line: s.subrange(start, line_end(s, p)),
    }
}

/// The place of a failure in the source text.
#[derive(Debug, Clone, Copy, PartialEq, Eq)]
pub struct Location<'a> {
    /// The index of the line, from 0: one less than the line's number.
    pub line_index: usize,
    /// The bytes of the line that stand before the failure.
    pub column: usize,
    /// The line before, empty for the first line.
    pub previous_line: &'a str,
    /// The line that holds the failure.
    pub error_line: &'a str,
}

impl<'a> View for Location<'a> {
    type V = Place;

    open spec fn view(&self) -> Place {
        Place {
            line: self.line_index as nat + 1,
            column: self.column as nat,
            previous_line: self.previous_line@,
            error_line: self.error_line@,
        }
    }
}

/// At most one index is the place of a failure.
pub proof fn lemma_marks_unique(s: Seq<char>, remaining: nat, p: int, q: int)
    requires
        marks(s, remaining, p),
        marks(s, remaining, q),
    ensures
        p == q,
{
    if p < q {
        lemma_byte_len_skip(s, p, q);
    }
    if q < p {
        lemma_byte_len_skip(s, q, p);
    }
}

proof fn lemma_line_bounds(s: Seq<char>, p: int)
    requires
        0 <= p <= s.len(),
    ensures
        0 <= line_start(s, p) <= p,
        p <= line_end(s, p) <= s.len(),
        newlines(s.take(p)) <= p,
{
    lemma_line_start_bounds(s, p);
    lemma_line_end_bounds(s, p);
    lemma_newlines_bound(s.take(p));
}

proof fn lemma_line_start_bounds(s: Seq<char>, p: int)
    requires
        0 <= p <= s.len(),
    ensures
        0 <= line_start(s, p) <= p,
    decreases p,
{
    if p > 0 && s[p - 1] != '\n' {
        lemma_line_start_bounds(s, p - 1);
    }
}

proof fn lemma_line_end_bounds(s: Seq<char>, p: int)
    requires
        0 <= p <= s.len(),
    ensures
        p <= line_end(s, p) <= s.len(),
    decreases s.len() - p,
{
    if p < s.len() && s[p] != '\n' {
        lemma_line_end_bounds(s, p + 1);
    }
}

proof fn lemma_newlines_bound(s: Seq<char>)
    ensures
        newlines(s) <= s.len(),
    decreases s.len(),
{
    if s.len() > 0 {
        lemma_newlines_bound(s.drop_last());
    }
}

/// Finds the place in `src` of a failure that left `remaining` bytes unread.
/// `None` when no place of `src` has that many bytes behind it.
pub fn locate<'a>(src: &'a str, remaining: usize) -> (r: Option<Location<'a>>)
    ensures
        match position(src@, remaining as nat) {
            Some(p) => r matches Some(found) && found@ == place_of(src@, p),
            None => r is None,
        },
{
    let ghost s = src@;
    let total = byte_count(src);
    proof {
        assert(s.skip(0) =~= s);
    }
    let mut cur = src;
    let mut i: usize = 0;
    let mut start: usize = 0;
    let mut previous_start: usize = 0;
    let mut line_index: usize = 0;
    proof {
        assert(s.take(0) =~= Seq::<char>::empty());
    }
    loop
        invariant
            s == src@,
            i <= s.len(),
            cur@ == s.skip(i as int),
            i + byte_len(cur@) <= total,
            start == line_start(s, i as int),
            start <= i,
            previous_start == (if start == 0 {
                0
            } else {
                line_start(s, start - 1)
            }),
            line_index == newlines(s.take(i as int)),
            line_index <= i,
            forall|q: int| 0 <= q < i ==> byte_len(s.skip(q)) > remaining,
        ensures
            byte_len(cur@) <= remaining,
        decreases cur@.len(),
    {
        if byte_count(cur) <= remaining {
            break ;
        }
        match split_first(cur) {
            None => {
                break ;
            },
            Some((c, _, rest)) => {
                proof {
                    lemma_encode_first(cur@);
                    assert(rest@ =~= s.skip(i + 1));
                    assert(c == s[i as int]);
                    assert(s.take(i + 1).drop_last() =~= s.take(i as int));
                    assert(s.take(i + 1).last() == c);
                }
                if c == '\n' {
                    previous_start = start;
                    start = i + 1;
                    line_index = line_index + 1;
                }
                i = i + 1;
                cur = rest;
            },
        }
    }
    if byte_count(cur) != remaining {
        proof {
            assert forall|p: int| !marks(s, remaining as nat, p) by {
                if i <= p <= s.len() {
                    lemma_byte_len_skip(s, i as int, p);
                }
            }
        }
        return None;
    }
    proof {
        assert(marks(s, remaining as nat, i as int));
        lemma_marks_unique(s, remaining as nat, i as int, position(s, remaining as nat)->0);
        lemma_line_bounds(s, i as int);
    }
    let mut end: usize = i;
    let mut tail = cur;
    loop
        invariant
            s == src@,
            i <= end <= s.len(),
            tail@ == s.skip(end as int),
            end + byte_len(tail@) <= total,
            line_end(s, i as int) == line_end(s, end as int),
        ensures
            end == line_end(s, i as int),
        decreases tail@.len(),
    {
        match split_first(tail) {
            None => {
                break ;
            },
            Some((c, _, rest)) => {
                if c == '\n' {
                    break ;
                }
                proof {
                    lemma_encode_first(tail@);
                    assert(rest@ =~= s.skip(end + 1));
                }
                end = end + 1;
                tail = rest;
            },
        }
    }
    let error_line = src.substring_char(start, end);
    let column = byte_count(src.substring_char(start, i));
    let previous_line = if start == 0 {
        proof {
            reveal_strlit("");
            assert(""@ =~= Seq::<char>::empty());
        }
        ""
    } else {
        proof {
            lemma_line_start_bounds(s, start - 1);
        }
        src.substring_char(previous_start, start - 1)
    };
    Some(Location { line_index, column, previous_line, error_line })
}

/// What a failure is called in a message.
pub open spec fn kind_text(e: JSONParseError) -> Seq<char> {
    match e {
        JSONParseError::Error(_) => "Error"@,
        JSONParseError::NotFound => "Not Found"@,
        JSONParseError::UnexpectedChar(_) => "Unexpected Character"@,
        JSONParseError::MissingClosing(_) => "Missing Closing"@,
    }
}

/// The character `c`, `n` times.
pub open spec fn repeated(c: char, n: nat) -> Seq<char> {
    Seq::new(n, |i: int| c)
}

/// The line that points at a column with the mark `c`.
pub open spec fn pointer_line(column: nat, c: char) -> Seq<char> {
    repeated(' ', column).push(c)
}

/// The lines that show a place: a rule as wide as the longer of the two
/// lines, the line before, the line itself, and a caret with two bars under
/// it at the column.
pub open spec fn frame_of(place: Place) -> Seq<Seq<char>> {
    let width = if byte_len(place.previous_line) > byte_len(place.error_line) {
        byte_len(place.previous_line)
    } else {
        byte_len(place.error_line)
    };
    seq![
        repeated('-', width),
        place.previous_line,
        place.error_line,
        pointer_line(place.column, '^'),
        pointer_line(place.column, '|'),
        pointer_line(place.column, '|'),
    ]
}

/// The sentence that names a failure and, where it has one, its place.
pub open spec fn message_of(e: JSONParseError, place: Option<Place>) -> Seq<char> {
    match place {
        Some(at) => "Error: "@ + kind_text(e) + " on Line "@ + decimal_digits(at.line) + " Char "@
            + decimal_digits(at.column),
        None => "Error: "@ + kind_text(e),
    }
}

/// What a reader is shown of a failure.
pub struct ReportText {
    pub frame: Seq<Seq<char>>,
    pub message: Seq<char>,
}

/// What is shown of the failure `e` of a parse of `s`. `NotFound` has no
/// place, and neither has a failure whose byte count fits no place of `s`:
/// of those only the name is shown.
pub open spec fn report_of(s: Seq<char>, e: JSONParseError) -> ReportText {
    let place = if e is NotFound {
        None
    } else {
        match position(s, e.spec_remaining() as nat) {
            Some(p) => Some(place_of(s, p)),
            None => None,
        }
    };
    ReportText {
        frame: match place {
            Some(at) => frame_of(at),
            None => Seq::empty(),
        },
        message: message_of(e, place),
    }
}

/// What a reader is shown of a failure: the lines that frame its place, and
/// the sentence that names it.
#[derive(Debug, Clone, PartialEq, Eq)]
pub struct Report {
    pub frame: Vec<String>,
    pub message: String,
}

impl View for Report {
    type V = ReportText;

    open spec fn view(&self) -> ReportText {
        ReportText {
            frame: Seq::new(self.frame@.len(), |i: int| self.frame@[i]@),
            message: self.message@,
        }
    }
}

/// The name of a failure.
pub fn kind(e: JSONParseError) -> (r: &'static str)
    ensures
        r@ == kind_text(e),
{
    match e {
        JSONParseError::Error(_) => "Error",
        JSONParseError::NotFound => "Not Found",
        JSONParseError::UnexpectedChar(_) => "Unexpected Character",
        JSONParseError::MissingClosing(_) => "Missing Closing",
    }
}

/// The one-character text `piece`, `n` times.
fn repeat(piece: &str, n: usize) -> (r: String)
    requires
        piece@.len() == 1,
    ensures
        r@ == repeated(piece@[0], n as nat),
{
    let mut r = String::new();
    let mut i: usize = 0;
    proof {
        assert(r@ =~= repeated(piece@[0], 0));
    }
    while i < n
        invariant
            i <= n,
            piece@.len() == 1,
            r@ == repeated(piece@[0], i as nat),
        decreases n - i,
    {
        proof {
            assert(r@ + piece@ =~= repeated(piece@[0], (i + 1) as nat));
        }
        r.append(piece);
        i = i + 1;
    }
    r
}

/// The line that points at `column` with the one-character text `mark`.
fn pointer(column: usize, mark: &str) -> (r: String)
    requires
        mark@.len() == 1,
    ensures
        r@ == pointer_line(column as nat, mark@[0]),
{
    proof {
        reveal_strlit(" ");
    }
    let mut r = repeat(" ", column);
    proof {
        assert(r@ + mark@ =~= r@.push(mark@[0]));
    }
    r.append(mark);
    r
}

/// Renders the failure `e` of a parse of `src` for a reader.
pub fn diagnose(src: &str, e: JSONParseError) -> (r: Report)
    ensures
        r@ == report_of(src@, e),
{
    let mut message = String::from_str("Error: ");
    message.append(kind(e));
    let found = match e {
        JSONParseError::NotFound => None,
        _ => locate(src, e.remaining()),
    };
    let mut frame: Vec<String> = Vec::new();
    match found {
        None => {
            proof {
                assert(Seq::new(frame@.len(), |i: int| frame@[i]@) =~= Seq::<Seq<char>>::empty());
            }
        },
        Some(at) => {
            let before = byte_count(at.previous_line);
            let here = byte_count(at.error_line);
            let width = if before > here {
                before
            } else {
                here
            };
            proof {
                reveal_strlit("-");
                reveal_strlit("^");
                reveal_strlit("|");
            }
            frame.push(repeat("-", width));
            frame.push(String::from_str(at.previous_line));
            frame.push(String::from_str(at.error_line));
            frame.push(pointer(at.column, "^"));
            frame.push(pointer(at.column, "|"));
            frame.push(pointer(at.column, "|"));
            message.append(" on Line ");
            message.append(decimal(at.line_index as u128 + 1).as_str());
            message.append(" Char ");
            message.append(decimal(at.column as u128).as_str());
            proof {
                assert(Seq::new(frame@.len(), |i: int| frame@[i]@) =~= frame_of(at@));
            }
        },
    }
    Report { frame, message }
}

} // verus!
