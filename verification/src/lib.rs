/// Numbers written in base ten.
pub mod decimal;
/// Where a failure lies in the source text, and how it is shown.
pub mod diagnostic;
/// The failures of a parse.
pub mod error;
/// The JSON grammar, as functions from a text to what each rule makes of it.
pub mod grammar;
/// What holds of the grammar for every text.
pub mod laws;
/// Whitespace and the keywords.
pub mod literal;
/// The number rules.
pub mod number;
/// The rules for values, arrays and objects, and the entry point.
pub mod parser;
/// Every rule stays inside the text it is given.
pub mod progress;
/// The string rule.
pub mod strings;
/// Characters and bytes of UTF-8 text.
pub mod text;
/// Parsed documents and their mathematical content.
pub mod value;

pub use error::JSONParseError;
pub use literal::{bool, null, ws};
pub use number::{digit, digits, exponent, fraction, integer, number, onenine};
pub use parser::{array, element, elements, member, members, object, parse, value};
pub use strings::string;
pub use value::{JSONNumber, JSONValue};
