use vstd::prelude::*;

verus! {

/// Why a parse stopped.
///
/// Every variant but `NotFound` carries the number of bytes of the input
/// that were still unread at the point of failure; the failure's offset from
/// the start of the input is the input's length minus that number.
#[derive(Debug, Clone, Copy, PartialEq, Eq, Structural)]
pub enum JSONParseError {
    /// A number was recognised but could not be converted. The rules of this
    /// library keep a number as it is written and never answer with this.
    Error(usize),
    /// No grammar alternative matches here. Rules use it to hand over to the
    /// next alternative; from `parse` it means the input holds no value.
    NotFound,
    /// A character that the grammar requires here is absent or wrong.
    UnexpectedChar(usize),
    /// A `"`, `[` or `{` was opened and never closed.
    MissingClosing(usize),
}

impl JSONParseError {
    /// Whether this failure ends the whole parse, as opposed to `NotFound`,
    /// which only says that one alternative does not apply.
    pub open spec fn is_hard(self) -> bool {
        !(self is NotFound)
    }

    /// The unread byte count that the failure carries; 0 for `NotFound`.
    pub open spec fn spec_remaining(self) -> usize {
        match self {
            JSONParseError::Error(n) => n,
            JSONParseError::NotFound => 0,
            JSONParseError::UnexpectedChar(n) => n,
            JSONParseError::MissingClosing(n) => n,
        }
    }

    /// The unread byte count that the failure carries; 0 for `NotFound`.
    #[verifier::when_used_as_spec(spec_remaining)]
    pub fn remaining(self) -> (n: usize)
        ensures
            n == self.spec_remaining(),
    {
        match self {
            JSONParseError::Error(n) => n,
            JSONParseError::NotFound => 0,
            JSONParseError::UnexpectedChar(n) => n,
            JSONParseError::MissingClosing(n) => n,
        }
    }
}

} // verus!
