//! Grammar dialects. [`Dialect`] selects the grammar the lexer and the walk read.

use vstd::prelude::*;

verus! {

/// Grammar the codec reads.
#[derive(Clone, Copy, Debug, PartialEq, Eq, Structural)]
#[non_exhaustive]
pub enum Dialect {
    /// RFC 8259, no comments, no trailing commas.
    Rfc8259,
    /// RFC 8259 plus `//` / `/* */` comments and trailing commas.
    Jsonc,
    /// JSONC plus the JSON5 subset: single-quoted strings, bare keys, extended numbers.
    Json5,
}

/// A number that has no finite value.
#[derive(Clone, Copy, Debug, PartialEq, Eq, Structural)]
pub enum NonFinite {
    /// `Infinity`.
    Infinity,
    /// `-Infinity`.
    NegativeInfinity,
    /// `NaN`.
    NaN,
}

/// Provenance of a validated document: which grammar a Strict pass read it under.
#[derive(Clone, Copy, Debug, PartialEq, Eq, Structural)]
pub struct GrammarTag {
    /// Codec-owned tag code; zero means no grammar validated the bytes.
    pub code: u8,
}

impl GrammarTag {
    /// A codec-owned tag.
    pub fn codec(code: u8) -> (r: Self)
        ensures
            r.code == code,
    {
        GrammarTag { code }
    }
}

/// The spelling of a non-finite number.
pub open spec fn non_finite_text(value: NonFinite) -> Seq<char> {
    match value {
        NonFinite::Infinity => "Infinity"@,
        NonFinite::NegativeInfinity => "-Infinity"@,
        NonFinite::NaN => "NaN"@,
    }
}

impl Default for Dialect {
    fn default() -> (r: Self)
        ensures
            r == Dialect::Rfc8259,
    {
        Dialect::Rfc8259
    }
}

impl Dialect {
    /// Whether comments are trivia under this grammar.
    pub open spec fn comments(self) -> bool {
        self == Dialect::Jsonc || self == Dialect::Json5
    }

    /// Tag code of this grammar.
    pub open spec fn tag_code(self) -> u8 {
        match self {
            Dialect::Rfc8259 => 1,
            Dialect::Jsonc => 2,
            Dialect::Json5 => 3,
        }
    }

    /// Whether `//` and `/* */` comments are trivia.
    #[must_use]
    pub fn has_comments(self) -> (r: bool)
        ensures
            r == self.comments(),
    {
        matches!(self, Dialect::Jsonc | Dialect::Json5)
    }

    /// Whether a comma before a closer is allowed.
    #[must_use]
    pub fn trailing_commas(self) -> (r: bool)
        ensures
            r == self.comments(),
    {
        matches!(self, Dialect::Jsonc | Dialect::Json5)
    }

    /// Whether JSON5 scalars and bare keys are allowed.
    #[must_use]
    pub fn json5(self) -> (r: bool)
        ensures
            r == (self == Dialect::Json5),
    {
        matches!(self, Dialect::Json5)
    }

    /// The spelling this grammar writes for `value`.
    /// `None` when it admits no non-finite numbers.
    #[must_use]
    pub fn non_finite_spelling(self, value: NonFinite) -> (r: Option<&'static str>)
        ensures
            (r is Some) == (self == Dialect::Json5),
            r matches Some(text) ==> text@ == non_finite_text(value),
    {
        if !self.json5() {
            return None;
        }
        Some(match value {
            NonFinite::Infinity => "Infinity",
            NonFinite::NegativeInfinity => "-Infinity",
            NonFinite::NaN => "NaN",
        })
    }

    /// Provenance tag a Strict pass records on a produced document. The write
    /// gate compares it against the write options before a byte-preserving write.
    #[must_use]
    pub fn grammar_tag(self) -> (r: GrammarTag)
        ensures
            r.code == self.tag_code(),
    {
        GrammarTag::codec(match self {
            Dialect::Rfc8259 => 1,
            Dialect::Jsonc => 2,
            Dialect::Json5 => 3,
        })
    }
}

/// Two grammars share a tag only when they are the same grammar, so a tag
/// comparison is a grammar comparison.
pub proof fn grammar_tags_name_one_dialect(a: Dialect, b: Dialect)
    ensures
        a.tag_code() == b.tag_code() <==> a == b,
{
}

} // verus!
