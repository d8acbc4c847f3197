//! Typed errors of the decoders and parsers. Errors local to one line carry
//! no position; whole-file parse errors carry the 1-based line number and,
//! for a rejected tag, the raw token.

use vstd::prelude::*;

verus! {

/// Error of a single-line or single-token decode.
#[derive(Debug, Clone, PartialEq)]
pub enum DecodeError {
    /// A tag token violates the tag grammar or holds an unusable value;
    /// carries the raw token.
    MalformedTag(String),
    /// A line lacks the columns the format requires.
    MissingColumns,
    /// A coordinate column is not an unsigned decimal number.
    InvalidCoordinate,
    /// Bytes that must be text are not valid UTF-8.
    Encoding,
}

/// Mathematical value of a `DecodeError`.
pub enum DecodeErrorModel {
    MalformedTag(Seq<char>),
    MissingColumns,
    InvalidCoordinate,
    Encoding,
}

impl View for DecodeError {
    type V = DecodeErrorModel;

    open spec fn view(&self) -> DecodeErrorModel {
        match self {
            DecodeError::MalformedTag(t) => DecodeErrorModel::MalformedTag(t@),
            DecodeError::MissingColumns => DecodeErrorModel::MissingColumns,
            DecodeError::InvalidCoordinate => DecodeErrorModel::InvalidCoordinate,
            DecodeError::Encoding => DecodeErrorModel::Encoding,
        }
    }
}

/// Error of a whole-file parse.
#[derive(Debug, Clone, PartialEq)]
pub enum ParseError {
    /// The file at the given path could not be opened. Produced by the
    /// embedding application, which owns all file access.
    FileOpen { path: String },
    /// A tag token on the given line violates the tag grammar or holds an
    /// unusable value.
    MalformedTag { line: usize, token: String },
    /// A segment's declared length tag disagrees with the byte length of its
    /// inline sequence.
    LengthMismatch { line: usize, declared: usize, actual: usize },
    /// A coordinate column on the given line is not an unsigned decimal
    /// number.
    InvalidCoordinate { line: usize },
    /// The given line lacks the columns its record type requires.
    MissingColumns { line: usize },
    /// Bytes on the given line that must be text are not valid UTF-8.
    Encoding { line: usize },
    /// The given line is too short to be a record of its marked type.
    MalformedRecord { line: usize },
    /// A region query named a landmark that the index does not hold.
    LandmarkNotFound { landmark: String },
}

/// Mathematical value of a `ParseError`.
pub enum ParseErrorModel {
    FileOpen { path: Seq<char> },
    MalformedTag { line: int, token: Seq<char> },
    LengthMismatch { line: int, declared: int, actual: int },
    InvalidCoordinate { line: int },
    MissingColumns { line: int },
    Encoding { line: int },
    MalformedRecord { line: int },
    LandmarkNotFound { landmark: Seq<char> },
}

impl View for ParseError {
    type V = ParseErrorModel;

    open spec fn view(&self) -> ParseErrorModel {
        match self {
            ParseError::FileOpen { path } => ParseErrorModel::FileOpen { path: path@ },
            ParseError::MalformedTag { line, token } => ParseErrorModel::MalformedTag {
                line: *line as int,
                token: token@,
            },
            ParseError::LengthMismatch { line, declared, actual } => ParseErrorModel::LengthMismatch {
                line: *line as int,
                declared: *declared as int,
                actual: *actual as int,
            },
            ParseError::InvalidCoordinate { line } => ParseErrorModel::InvalidCoordinate {
                line: *line as int,
            },
            ParseError::MissingColumns { line } => ParseErrorModel::MissingColumns {
                line: *line as int,
            },
            ParseError::Encoding { line } => ParseErrorModel::Encoding { line: *line as int },
            ParseError::MalformedRecord { line } => ParseErrorModel::MalformedRecord {
                line: *line as int,
            },
            ParseError::LandmarkNotFound { landmark } => ParseErrorModel::LandmarkNotFound {
                landmark: landmark@,
            },
        }
    }
}

/// The whole-file error that a line-local decode error becomes, at the given
/// 1-based line number.
pub open spec fn spec_line_error(e: DecodeErrorModel, line: int) -> ParseErrorModel {
    match e {
        DecodeErrorModel::MalformedTag(t) => ParseErrorModel::MalformedTag { line, token: t },
        DecodeErrorModel::MissingColumns => ParseErrorModel::MissingColumns { line },
        DecodeErrorModel::InvalidCoordinate => ParseErrorModel::InvalidCoordinate { line },
        DecodeErrorModel::Encoding => ParseErrorModel::Encoding { line },
    }
}

/// Attach a 1-based line number to a line-local decode error.
pub fn line_error(e: DecodeError, line: usize) -> (r: ParseError)
    ensures
        r@ == spec_line_error(e@, line as int),
{
    match e {
        DecodeError::MalformedTag(t) => ParseError::MalformedTag { line, token: t },
        DecodeError::MissingColumns => ParseError::MissingColumns { line },
        DecodeError::InvalidCoordinate => ParseError::InvalidCoordinate { line },
        DecodeError::Encoding => ParseError::Encoding { line },
    }
}

} // verus!
