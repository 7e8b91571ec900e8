//! The ways in which encoding a data set or inducing a tree can fail.
use vstd::prelude::*;

verus! {

/// Which of the two indices of a data set lies outside of it.
#[derive(Clone, Copy, Debug, PartialEq, Eq)]
pub enum Position {
    /// The index of an attribute, that is of a column.
    Attribute(usize),
    /// The index of an instance, that is of a row.
    Instance(usize),
}

/// Why an operation of this crate did not go through.
#[derive(Clone, Debug, PartialEq, Eq)]
pub enum Error {
    /// A nominal column holds `value`, which the layout fitted for the
    /// column `attribute` does not know.
    UnknownCategory { attribute: usize, value: String },
    /// An index lies outside of the data set.
    OutOfBounds(Position),
    /// A tree was to be induced from no instances at all.
    EmptyDataset,
}

/// Why a text is not a relation in the attribute-relation file format.
#[derive(Clone, Copy, Debug, PartialEq, Eq, Structural)]
pub enum ParseError {
    /// A word was expected where only white space is left.
    EndOfFile,
    /// A word, or what a quotation mark opens, starts with a character
    /// outside of ASCII.
    UnreadableCharacter,
    /// A single quotation mark is not closed.
    MissingSingleQuote,
    /// A double quotation mark is not closed.
    MissingDoubleQuote,
    /// The fields of a nominal attribute are not opened by a brace.
    MissingOpeningBrace,
    /// The fields of a nominal attribute are not closed by a brace.
    MissingClosingBrace,
    /// The text holds no `@relation`.
    NoRelationTag,
    /// The text holds no `@data`.
    NoDataTag,
    /// A row has more values than there are attributes.
    TooManyValues,
    /// A value of a nominal attribute is none of its fields.
    UnknownField,
    /// A value of a numeric attribute is no decimal number.
    NotANumber,
    /// A value of a numeric attribute is too large to be held.
    NumberOutOfRange,
    /// A value belongs to an attribute of a type whose values cannot be
    /// read.
    UnsupportedType,
}

} // verus!
