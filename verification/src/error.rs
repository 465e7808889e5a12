//! The errors of the library.
use regex::Error as RegexError;
use regex_syntax::Error as SyntaxError;
use vstd::prelude::*;

verus! {

/// Which generation bound a check is about.
#[derive(Debug, Clone, Copy, PartialEq, Eq, Structural)]
pub enum Bound {
    Start,
    Stop,
}

/// A regex feature that counting does not handle.
#[derive(Debug, Clone, Copy, PartialEq, Eq, Structural)]
pub enum Unsupported {
    /// A byte class holding a byte that is not ASCII.
    NonUtf8ByteClass,
    /// A repetition whose strings have no positive length.
    UnboundedEmptyRepetition,
    /// Generation from a repetition without upper bound, with no maximum
    /// length to bound it.
    UnboundedGeneration,
    /// A pattern that may derive one string in more than one way, so that
    /// counting derivations would not count Match Strings.
    AmbiguousPattern,
    /// A word boundary, or an anchor that does not stand at the start or end
    /// of the whole pattern, so that counting it as always holding would be
    /// wrong.
    LookAround,
}

/// Why a request failed.
#[derive(Debug)]
pub enum Error {
    /// regex-syntax refused the pattern.
    Parse(SyntaxError),
    /// regex refused to compile the anchored pattern.
    Regex(RegexError),
    /// The pattern uses a feature that counting does not handle.
    Unsupported(Unsupported),
    /// The minimum length is larger than the maximum length.
    MinExceedsMax,
    /// A start or stop string that the pattern does not match.
    BoundMismatch(Bound),
    /// A start or stop string outside the length constraints.
    BoundLength(Bound),
    /// A generated string that is not valid UTF-8.
    InvalidUtf8,
}


impl Bound {
    /// How messages name the bound.
    pub open spec fn spec_label(&self) -> Seq<char> {
        match self {
            Bound::Start => "start string"@,
            Bound::Stop => "stop string"@,
        }
    }

    pub fn label(&self) -> (s: &'static str)
        ensures
            s@ == self.spec_label(),
    {
        match self {
            Bound::Start => "start string",
            Bound::Stop => "stop string",
        }
    }
}

impl Unsupported {
    /// How messages name the feature.
    pub open spec fn spec_text(&self) -> Seq<char> {
        match self {
            Unsupported::NonUtf8ByteClass => "non-UTF-8 byte classes"@,
            Unsupported::UnboundedEmptyRepetition => "unbounded empty repetition"@,
            Unsupported::UnboundedGeneration => "unbounded repetition without a maximum length"@,
            Unsupported::AmbiguousPattern => "patterns that can match one string in more than one way"@,
            Unsupported::LookAround => "word boundaries and anchors inside the pattern"@,
        }
    }

    pub fn text(&self) -> (s: &'static str)
        ensures
            s@ == self.spec_text(),
    {
        match self {
            Unsupported::NonUtf8ByteClass => "non-UTF-8 byte classes",
            Unsupported::UnboundedEmptyRepetition => "unbounded empty repetition",
            Unsupported::UnboundedGeneration => "unbounded repetition without a maximum length",
            Unsupported::AmbiguousPattern => "patterns that can match one string in more than one way",
            Unsupported::LookAround => "word boundaries and anchors inside the pattern",
        }
    }
}

/// regex-syntax's `Display` of its error (`to_string`).
#[verifier::external_body]
fn syntax_error_text(e: &SyntaxError) -> String {
    e.to_string()
}

/// regex's `Display` of its error (`to_string`).
#[verifier::external_body]
fn regex_error_text(e: &RegexError) -> String {
    e.to_string()
}

impl Error {
    /// The message that describes the error.
    pub fn message(&self) -> (s: String)
        ensures
            match self {
                Error::Parse(_) => "regex parse error: "@.is_prefix_of(s@),
                Error::Regex(_) => "regex compile error: "@.is_prefix_of(s@),
                Error::Unsupported(u) => s@ == "unsupported regex feature: "@ + u.spec_text(),
                Error::MinExceedsMax => s@ == "--min-len cannot exceed --max-len"@,
                Error::BoundMismatch(b) => s@ == b.spec_label() + " must match the pattern"@,
                Error::BoundLength(b) => s@ == b.spec_label() + " must satisfy length constraints"@,
                Error::InvalidUtf8 => s@ == "generated string is not valid UTF-8"@,
            },
    {
        match self {
            Error::Parse(e) => {
                let mut s = String::from_str("regex parse error: ");
                let detail = syntax_error_text(e);
                s.append(detail.as_str());
                assert("regex parse error: "@.is_prefix_of(s@)) by {
                    assert(s@.take("regex parse error: "@.len() as int) =~= "regex parse error: "@);
                }
                s
            },
            Error::Regex(e) => {
                let mut s = String::from_str("regex compile error: ");
                let detail = regex_error_text(e);
                s.append(detail.as_str());
                assert("regex compile error: "@.is_prefix_of(s@)) by {
                    assert(s@.take("regex compile error: "@.len() as int) =~= "regex compile error: "@);
                }
                s
            },
            Error::Unsupported(u) => {
                let mut s = String::from_str("unsupported regex feature: ");
                s.append(u.text());
                s
            },
            Error::MinExceedsMax => String::from_str("--min-len cannot exceed --max-len"),
            Error::BoundMismatch(b) => {
                let mut s = String::from_str(b.label());
                s.append(" must match the pattern");
                s
            },
            Error::BoundLength(b) => {
                let mut s = String::from_str(b.label());
                s.append(" must satisfy length constraints");
                s
            },
            Error::InvalidUtf8 => String::from_str("generated string is not valid UTF-8"),
        }
    }
}

} // verus!
