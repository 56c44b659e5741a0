//! Refusals: what was wrong, and the byte offset it was found at.

use vstd::prelude::*;

verus! {

/// Broad class of a refusal.
#[derive(Clone, Copy, Debug, PartialEq, Eq, Structural)]
pub enum ErrorClass {
    /// Token or structure grammar.
    Syntax,
    /// Number grammar.
    Number,
    /// String escape grammar.
    Escape,
    /// Text encoding.
    Utf8,
    /// A bound was exceeded.
    Limit,
    /// The request does not fit the value.
    Shape,
    /// A write was refused.
    Write,
    /// The host stopped the request.
    Control,
}

/// What was refused.
#[derive(Clone, Copy, Debug, PartialEq, Eq, Structural)]
#[non_exhaustive]
pub enum ErrorKind {
    ExpectedValue,
    ExpectedKey,
    ExpectedColon,
    ExpectedCommaObject,
    ExpectedCommaArray,
    TrailingComma,
    TrailingContent,
    UnterminatedString,
    UnterminatedComment,
    InvalidComment,
    InvalidNumber,
    LeadingZeros,
    IncompleteNumber,
    InvalidLiteral,
    InvalidEscape,
    ControlInString,
    InvalidUnicodeEscape,
    MissingLowSurrogate,
    InvalidSurrogatePair,
    Utf8,
    Limit,
    PredicateOperand,
    EditUnplaceable,
    Cancelled,
    DeadlineExceeded,
    MemoryExceeded,
    TapeCapacity,
    /// A source-backed view would exceed 32-bit offsets.
    BorrowedCapacity,
    OracleIsNotAValue,
    MissingIsNotAValue,
    MismatchIsNotAValue,
    ChunkNeedsArray,
    ChunkOutOfBounds,
    RangePastSource,
    NotFullyValidated,
    NonFiniteNeedsDialect,
    DialectMismatch,
    NoDocument,
    NotAValueSpan,
    OverlappingEdits,
    FactIsMissing,
    DeleteRoot,
    InsertRoot,
    ReplaceNeedsMember,
}

/// A refusal at a byte offset. An offset past 32 bits is reported as the largest one.
#[derive(Clone, Copy, Debug, PartialEq, Eq, Structural)]
pub struct Error {
    /// What was refused.
    pub kind: ErrorKind,
    /// Byte offset, saturated to 32 bits.
    pub offset: u32,
}

/// `n`, or the largest 32-bit offset when `n` does not fit.
pub open spec fn saturated(n: int) -> u32 {
    if n > u32::MAX {
        u32::MAX
    } else {
        n as u32
    }
}

/// The refusal `kind` at `offset`.
pub open spec fn at(kind: ErrorKind, offset: int) -> Error {
    Error { kind, offset: saturated(offset) }
}

/// `n`, or the largest 32-bit offset when `n` does not fit.
pub(crate) fn sat_u32(n: usize) -> (r: u32)
    ensures
        r == saturated(n as int),
{
    if n > 0xffff_ffff {
        u32::MAX
    } else {
        n as u32
    }
}

/// Class of a refusal kind.
pub open spec fn class_of(kind: ErrorKind) -> ErrorClass {
    match kind {
        ErrorKind::InvalidNumber | ErrorKind::LeadingZeros | ErrorKind::IncompleteNumber => ErrorClass::Number,
        ErrorKind::InvalidEscape | ErrorKind::InvalidUnicodeEscape | ErrorKind::MissingLowSurrogate
        | ErrorKind::InvalidSurrogatePair => ErrorClass::Escape,
        ErrorKind::Utf8 => ErrorClass::Utf8,
        ErrorKind::Limit | ErrorKind::TapeCapacity | ErrorKind::BorrowedCapacity => ErrorClass::Limit,
        ErrorKind::PredicateOperand | ErrorKind::OracleIsNotAValue | ErrorKind::MissingIsNotAValue
        | ErrorKind::MismatchIsNotAValue | ErrorKind::ChunkNeedsArray | ErrorKind::ChunkOutOfBounds
        | ErrorKind::RangePastSource => ErrorClass::Shape,
        ErrorKind::EditUnplaceable | ErrorKind::NotFullyValidated | ErrorKind::NonFiniteNeedsDialect
        | ErrorKind::DialectMismatch | ErrorKind::NoDocument | ErrorKind::NotAValueSpan
        | ErrorKind::OverlappingEdits | ErrorKind::FactIsMissing | ErrorKind::DeleteRoot
        | ErrorKind::InsertRoot | ErrorKind::ReplaceNeedsMember => ErrorClass::Write,
        ErrorKind::Cancelled | ErrorKind::DeadlineExceeded | ErrorKind::MemoryExceeded => ErrorClass::Control,
        _ => ErrorClass::Syntax,
    }
}

/// Stable code of a refusal kind.
pub open spec fn code_of(kind: ErrorKind) -> Seq<char> {
    match kind {
        ErrorKind::ExpectedValue => "expected-value"@,
        ErrorKind::ExpectedKey => "expected-key"@,
        ErrorKind::ExpectedColon => "expected-colon"@,
        ErrorKind::ExpectedCommaObject | ErrorKind::ExpectedCommaArray => "expected-comma"@,
        ErrorKind::TrailingComma => "trailing-comma"@,
        ErrorKind::TrailingContent => "trailing-content"@,
        ErrorKind::UnterminatedString => "unterminated-string"@,
        ErrorKind::UnterminatedComment => "unterminated-comment"@,
        ErrorKind::InvalidComment => "invalid-comment"@,
        ErrorKind::InvalidNumber | ErrorKind::LeadingZeros | ErrorKind::IncompleteNumber => "invalid-number"@,
        ErrorKind::InvalidLiteral => "invalid-literal"@,
        ErrorKind::InvalidEscape => "invalid-escape"@,
        ErrorKind::ControlInString => "control-in-string"@,
        ErrorKind::InvalidUnicodeEscape => "invalid-unicode-escape"@,
        ErrorKind::MissingLowSurrogate => "missing-low-surrogate"@,
        ErrorKind::InvalidSurrogatePair => "invalid-surrogate-pair"@,
        ErrorKind::Utf8 => "invalid-utf8"@,
        ErrorKind::Limit => "nesting"@,
        ErrorKind::PredicateOperand => "predicate-operand"@,
        ErrorKind::EditUnplaceable => "edit-unplaceable"@,
        ErrorKind::Cancelled => "cancelled"@,
        ErrorKind::DeadlineExceeded => "deadline-exceeded"@,
        ErrorKind::MemoryExceeded => "memory-exceeded"@,
        ErrorKind::TapeCapacity => "tape-capacity"@,
        ErrorKind::BorrowedCapacity => "borrowed-capacity"@,
        ErrorKind::OracleIsNotAValue | ErrorKind::MissingIsNotAValue | ErrorKind::MismatchIsNotAValue
        | ErrorKind::ChunkNeedsArray | ErrorKind::ChunkOutOfBounds | ErrorKind::RangePastSource =>
            "invalid-shape"@,
        ErrorKind::DialectMismatch => "dialect-mismatch"@,
        _ => "write"@,
    }
}

/// What a refusal says of its kind.
pub open spec fn message_of(kind: ErrorKind) -> Seq<char> {
    match kind {
        ErrorKind::ExpectedValue => "expected one complete JSON value"@,
        ErrorKind::ExpectedKey => "expected an object string key"@,
        ErrorKind::ExpectedColon => "expected `:`"@,
        ErrorKind::ExpectedCommaObject => "expected `,` or `}`"@,
        ErrorKind::ExpectedCommaArray => "expected `,` or `]`"@,
        ErrorKind::TrailingComma => "trailing comma is not permitted"@,
        ErrorKind::TrailingContent => "trailing content after JSON value"@,
        ErrorKind::UnterminatedString => "unterminated JSON string"@,
        ErrorKind::UnterminatedComment => "unterminated block comment"@,
        ErrorKind::InvalidComment => "`/` does not start a comment"@,
        ErrorKind::InvalidNumber => "invalid JSON number"@,
        ErrorKind::LeadingZeros => "a JSON number cannot have leading zeros"@,
        ErrorKind::IncompleteNumber => "incomplete JSON number"@,
        ErrorKind::InvalidLiteral => "invalid JSON literal"@,
        ErrorKind::InvalidEscape => "invalid JSON escape"@,
        ErrorKind::ControlInString => "unescaped control byte in string"@,
        ErrorKind::InvalidUnicodeEscape => "invalid Unicode escape"@,
        ErrorKind::MissingLowSurrogate => "high surrogate must be followed by a low surrogate"@,
        ErrorKind::InvalidSurrogatePair => "invalid Unicode surrogate pair"@,
        ErrorKind::Utf8 => "input is not valid UTF-8"@,
        ErrorKind::Limit => "nesting exceeds the codec bound"@,
        ErrorKind::PredicateOperand => "predicate equality operand must be a scalar"@,
        ErrorKind::EditUnplaceable => "edit cannot be spliced in place"@,
        ErrorKind::Cancelled => "request cancelled by the host"@,
        ErrorKind::DeadlineExceeded => "request deadline exceeded"@,
        ErrorKind::MemoryExceeded => "physical memory ceiling exceeded"@,
        ErrorKind::TapeCapacity => "tape exceeds 32-bit arena ids"@,
        ErrorKind::BorrowedCapacity => "borrowed view exceeds 32-bit offsets"@,
        ErrorKind::OracleIsNotAValue => "oracle is not a value"@,
        ErrorKind::MissingIsNotAValue => "missing is not a value"@,
        ErrorKind::MismatchIsNotAValue => "type mismatch is not a value"@,
        ErrorKind::ChunkNeedsArray => "parallel encode chunk needs an array value"@,
        ErrorKind::ChunkOutOfBounds => "parallel encode chunk is out of bounds"@,
        ErrorKind::RangePastSource => "the range starts past the source"@,
        ErrorKind::NotFullyValidated => "encode refuses a document that was not fully validated"@,
        ErrorKind::NonFiniteNeedsDialect => "non-finite number requires a dialect that admits it"@,
        ErrorKind::DialectMismatch => "a verbatim write requires the document's validating dialect"@,
        ErrorKind::NoDocument => "validated input did not yield a document"@,
        ErrorKind::NotAValueSpan => "edit path is not a value span"@,
        ErrorKind::OverlappingEdits => "overlapping edits"@,
        ErrorKind::FactIsMissing => "edit fact is missing"@,
        ErrorKind::DeleteRoot => "cannot delete the document root"@,
        ErrorKind::InsertRoot => "cannot insert at the document root"@,
        ErrorKind::ReplaceNeedsMember => "replace-member needs an object member path"@,
    }
}

impl Error {
    /// The refusal `kind` at `offset`.
    #[must_use]
    pub fn new(kind: ErrorKind, offset: usize) -> (r: Self)
        ensures
            r == at(kind, offset as int),
    {
        Error { kind, offset: sat_u32(offset) }
    }

    /// Broad class of this refusal.
    #[must_use]
    pub fn class(&self) -> (r: ErrorClass)
        ensures
            r == class_of(self.kind),
    {
        match self.kind {
            ErrorKind::InvalidNumber | ErrorKind::LeadingZeros | ErrorKind::IncompleteNumber => ErrorClass::Number,
            ErrorKind::InvalidEscape | ErrorKind::InvalidUnicodeEscape | ErrorKind::MissingLowSurrogate
            | ErrorKind::InvalidSurrogatePair => ErrorClass::Escape,
            ErrorKind::Utf8 => ErrorClass::Utf8,
            ErrorKind::Limit | ErrorKind::TapeCapacity | ErrorKind::BorrowedCapacity => ErrorClass::Limit,
            ErrorKind::PredicateOperand | ErrorKind::OracleIsNotAValue | ErrorKind::MissingIsNotAValue
            | ErrorKind::MismatchIsNotAValue | ErrorKind::ChunkNeedsArray | ErrorKind::ChunkOutOfBounds
            | ErrorKind::RangePastSource => ErrorClass::Shape,
            ErrorKind::EditUnplaceable | ErrorKind::NotFullyValidated | ErrorKind::NonFiniteNeedsDialect
            | ErrorKind::DialectMismatch | ErrorKind::NoDocument | ErrorKind::NotAValueSpan
            | ErrorKind::OverlappingEdits | ErrorKind::FactIsMissing | ErrorKind::DeleteRoot
            | ErrorKind::InsertRoot | ErrorKind::ReplaceNeedsMember => ErrorClass::Write,
            ErrorKind::Cancelled | ErrorKind::DeadlineExceeded | ErrorKind::MemoryExceeded => ErrorClass::Control,
            _ => ErrorClass::Syntax,
        }
    }

    /// Stable code of this refusal.
    #[must_use]
    pub fn code(&self) -> (r: &'static str)
        ensures
            r@ == code_of(self.kind),
    {
        match self.kind {
            ErrorKind::ExpectedValue => "expected-value",
            ErrorKind::ExpectedKey => "expected-key",
            ErrorKind::ExpectedColon => "expected-colon",
            ErrorKind::ExpectedCommaObject | ErrorKind::ExpectedCommaArray => "expected-comma",
            ErrorKind::TrailingComma => "trailing-comma",
            ErrorKind::TrailingContent => "trailing-content",
            ErrorKind::UnterminatedString => "unterminated-string",
            ErrorKind::UnterminatedComment => "unterminated-comment",
            ErrorKind::InvalidComment => "invalid-comment",
            ErrorKind::InvalidNumber | ErrorKind::LeadingZeros | ErrorKind::IncompleteNumber => "invalid-number",
            ErrorKind::InvalidLiteral => "invalid-literal",
            ErrorKind::InvalidEscape => "invalid-escape",
            ErrorKind::ControlInString => "control-in-string",
            ErrorKind::InvalidUnicodeEscape => "invalid-unicode-escape",
            ErrorKind::MissingLowSurrogate => "missing-low-surrogate",
            ErrorKind::InvalidSurrogatePair => "invalid-surrogate-pair",
            ErrorKind::Utf8 => "invalid-utf8",
            ErrorKind::Limit => "nesting",
            ErrorKind::PredicateOperand => "predicate-operand",
            ErrorKind::EditUnplaceable => "edit-unplaceable",
            ErrorKind::Cancelled => "cancelled",
            ErrorKind::DeadlineExceeded => "deadline-exceeded",
            ErrorKind::MemoryExceeded => "memory-exceeded",
            ErrorKind::TapeCapacity => "tape-capacity",
            ErrorKind::BorrowedCapacity => "borrowed-capacity",
            ErrorKind::OracleIsNotAValue | ErrorKind::MissingIsNotAValue | ErrorKind::MismatchIsNotAValue
            | ErrorKind::ChunkNeedsArray | ErrorKind::ChunkOutOfBounds | ErrorKind::RangePastSource =>
                "invalid-shape",
            ErrorKind::DialectMismatch => "dialect-mismatch",
            _ => "write",
        }
    }

    /// What the refusal says.
    #[must_use]
    pub fn message(&self) -> (r: &'static str)
        ensures
            r@ == message_of(self.kind),
    {
        match self.kind {
            ErrorKind::ExpectedValue => "expected one complete JSON value",
            ErrorKind::ExpectedKey => "expected an object string key",
            ErrorKind::ExpectedColon => "expected `:`",
            ErrorKind::ExpectedCommaObject => "expected `,` or `}`",
            ErrorKind::ExpectedCommaArray => "expected `,` or `]`",
            ErrorKind::TrailingComma => "trailing comma is not permitted",
            ErrorKind::TrailingContent => "trailing content after JSON value",
            ErrorKind::UnterminatedString => "unterminated JSON string",
            ErrorKind::UnterminatedComment => "unterminated block comment",
            ErrorKind::InvalidComment => "`/` does not start a comment",
            ErrorKind::InvalidNumber => "invalid JSON number",
            ErrorKind::LeadingZeros => "a JSON number cannot have leading zeros",
            ErrorKind::IncompleteNumber => "incomplete JSON number",
            ErrorKind::InvalidLiteral => "invalid JSON literal",
            ErrorKind::InvalidEscape => "invalid JSON escape",
            ErrorKind::ControlInString => "unescaped control byte in string",
            ErrorKind::InvalidUnicodeEscape => "invalid Unicode escape",
            ErrorKind::MissingLowSurrogate => "high surrogate must be followed by a low surrogate",
            ErrorKind::InvalidSurrogatePair => "invalid Unicode surrogate pair",
            ErrorKind::Utf8 => "input is not valid UTF-8",
            ErrorKind::Limit => "nesting exceeds the codec bound",
            ErrorKind::PredicateOperand => "predicate equality operand must be a scalar",
            ErrorKind::EditUnplaceable => "edit cannot be spliced in place",
            ErrorKind::Cancelled => "request cancelled by the host",
            ErrorKind::DeadlineExceeded => "request deadline exceeded",
            ErrorKind::MemoryExceeded => "physical memory ceiling exceeded",
            ErrorKind::TapeCapacity => "tape exceeds 32-bit arena ids",
            ErrorKind::BorrowedCapacity => "borrowed view exceeds 32-bit offsets",
            ErrorKind::OracleIsNotAValue => "oracle is not a value",
            ErrorKind::MissingIsNotAValue => "missing is not a value",
            ErrorKind::MismatchIsNotAValue => "type mismatch is not a value",
            ErrorKind::ChunkNeedsArray => "parallel encode chunk needs an array value",
            ErrorKind::ChunkOutOfBounds => "parallel encode chunk is out of bounds",
            ErrorKind::RangePastSource => "the range starts past the source",
            ErrorKind::NotFullyValidated => "encode refuses a document that was not fully validated",
            ErrorKind::NonFiniteNeedsDialect => "non-finite number requires a dialect that admits it",
            ErrorKind::DialectMismatch => "a verbatim write requires the document's validating dialect",
            ErrorKind::NoDocument => "validated input did not yield a document",
            ErrorKind::NotAValueSpan => "edit path is not a value span",
            ErrorKind::OverlappingEdits => "overlapping edits",
            ErrorKind::FactIsMissing => "edit fact is missing",
            ErrorKind::DeleteRoot => "cannot delete the document root",
            ErrorKind::InsertRoot => "cannot insert at the document root",
            ErrorKind::ReplaceNeedsMember => "replace-member needs an object member path",
        }
    }
}

} // verus!
