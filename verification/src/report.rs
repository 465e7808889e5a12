//! What the command prints, and how it reads a confirmation.
use vstd::prelude::*;

verus! {

/// Which statistics to print after an analysis.
#[derive(Debug, Clone, Copy, PartialEq, Eq, Structural)]
pub enum Report {
    /// The Match Count alone.
    Count,
    /// The Corpus Byte Size alone.
    Size,
    /// Both, labelled.
    Both,
}

/// The statistics to print for the `--count` and `--size` flags: one of them
/// alone prints that statistic, neither or both print both.
pub fn report_for(want_count: bool, want_size: bool) -> (r: Report)
    ensures
        r == if want_count && !want_size {
            Report::Count
        } else if want_size && !want_count {
            Report::Size
        } else {
            Report::Both
        },
{
    if want_count && !want_size {
        Report::Count
    } else if want_size && !want_count {
        Report::Size
    } else {
        Report::Both
    }
}

/// An analysis runs unless generation alone was asked for.
pub fn analysis_wanted(want_generate: bool, want_count: bool, want_size: bool) -> (b: bool)
    ensures
        b == (!want_generate || want_count || want_size),
{
    !want_generate || want_count || want_size
}

/// A character with the Unicode White_Space property, which `str::trim`
/// removes.
pub open spec fn is_white_space(c: char) -> bool {
    let u = c as u32;
    ||| 0x9 <= u <= 0xD
    ||| u == 0x20 || u == 0x85 || u == 0xA0 || u == 0x1680
    ||| 0x2000 <= u <= 0x200A
    ||| u == 0x2028 || u == 0x2029 || u == 0x202F || u == 0x205F || u == 0x3000
}

/// `s` without its leading white space.
pub open spec fn trim_start(s: Seq<char>) -> Seq<char>
    decreases s.len(),
{
    if s.len() > 0 && is_white_space(s[0]) { trim_start(s.drop_first()) } else { s }
}

/// `s` without its trailing white space.
pub open spec fn trim_end(s: Seq<char>) -> Seq<char>
    decreases s.len(),
{
    if s.len() > 0 && is_white_space(s.last()) { trim_end(s.drop_last()) } else { s }
}

/// What `str::trim` leaves of a string: the string without leading and
/// trailing white space.
pub open spec fn trimmed(s: Seq<char>) -> Seq<char> {
    trim_end(trim_start(s))
}

/// `str::trim`: the string without leading and trailing characters of the
/// Unicode White_Space property, as its documentation defines it.
#[verifier::external_body]
fn trim(s: &str) -> (r: &str)
    ensures
        r@ == trimmed(s@),
{
    s.trim()
}

/// `c` is the lower case ASCII letter `lower`, in either case.
pub open spec fn same_letter(c: char, lower: char) -> bool {
    c == lower || (c as u32) + 32 == lower as u32
}

/// The word is "y" or "yes" in any ASCII case.
pub open spec fn spec_yes_word(a: Seq<char>) -> bool {
    ||| a.len() == 1 && same_letter(a[0], 'y')
    ||| a.len() == 3 && same_letter(a[0], 'y') && same_letter(a[1], 'e') && same_letter(a[2], 's')
}

/// The answer, trimmed, is "y" or "yes" in any ASCII case.
pub open spec fn spec_is_yes(answer: Seq<char>) -> bool {
    spec_yes_word(trimmed(answer))
}

/// Whether a trimmed answer is "y" or "yes" in any ASCII case.
pub fn is_yes_word(t: &str) -> (b: bool)
    ensures
        b == spec_yes_word(t@),
{
    let n = t.unicode_len();
    if n == 1 {
        let c = t.get_char(0);
        c == 'y' || c == 'Y'
    } else if n == 3 {
        let c0 = t.get_char(0);
        let c1 = t.get_char(1);
        let c2 = t.get_char(2);
        (c0 == 'y' || c0 == 'Y') && (c1 == 'e' || c1 == 'E') && (c2 == 's' || c2 == 'S')
    } else {
        false
    }
}

/// Whether a confirmation answer accepts: "y" or "yes" in any ASCII case,
/// with surrounding white space.
pub fn is_yes(answer: &str) -> (b: bool)
    ensures
        b == spec_is_yes(answer@),
{
    is_yes_word(trim(answer))
}

} // verus!
