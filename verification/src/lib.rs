//! Counting and generating the strings that a regular expression matches:
//! the Match Count and Corpus Byte Size of a pattern under length
//! constraints, and the Match Strings themselves in regex traversal order.
mod agreement;
mod bytesize;
mod calculate;
mod corpus;
mod distinct;
mod error;
mod generate;
mod matcher;
mod natural;
mod perm;
mod report;
mod syntax;
mod unique;
mod units;

pub use bytesize::ByteSize;
pub use calculate::{analyze, min_positive_len, Amount, Stats};
pub use corpus::{
    Corpus, Emit, GenerationControl, GenerationOrder, GenerationRequest, LengthConstraints, Recorder,
};
pub use error::{Bound, Error, Unsupported};
pub use generate::Generate;
pub use natural::Natural;
pub use report::{analysis_wanted, is_yes, is_yes_word, report_for, Report};
pub use perm::{Pattern, PatternKind};
pub use syntax::{anchors_in_place, Assertion, Node, Parsed};
pub use units::format_binary;
pub use unique::is_unique;
