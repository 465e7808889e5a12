//! The syntax tree of a pattern, as regex-syntax parses it.
use regex_syntax::hir::Class;
use regex_syntax::hir::Hir;
use regex_syntax::hir::HirKind;
use regex_syntax::hir::Look;
use regex_syntax::Error as SyntaxError;
use regex_syntax::Parser;
use crate::error::Error;
use vstd::prelude::*;

verus! {

#[verifier::external_type_specification]
#[verifier::external_body]
pub struct ExHir(Hir);

#[verifier::external_type_specification]
#[verifier::external_body]
pub struct ExClass(Class);

#[verifier::external_type_specification]
#[verifier::external_body]
pub struct ExSyntaxError(SyntaxError);

#[verifier::external_type_specification]
#[verifier::external_body]
pub struct ExLook(Look);

/// What a zero-width assertion of a pattern tests.
#[derive(Debug, Clone, Copy, PartialEq, Eq, Structural)]
pub enum Assertion {
    /// The start of the text (`^`, `\A`).
    TextStart,
    /// The end of the text (`$`, `\z`).
    TextEnd,
    /// The start of a line (multi-line `^`).
    LineStart,
    /// The end of a line (multi-line `$`).
    LineEnd,
    /// A word boundary or its negation, or the start or end of a word.
    WordBoundary,
}

/// One node of a pattern's syntax tree: the parts of regex-syntax's `Hir`
/// that counting and generation read.
#[derive(Debug)]
pub enum Node {
    /// Matches the empty string.
    Empty,
    /// A zero-width assertion (anchor or word boundary).
    Look(Assertion),
    /// Matches exactly these bytes.
    Literal(Vec<u8>),
    /// Matches one character of these inclusive ranges.
    UnicodeClass(Vec<(char, char)>),
    /// Matches one byte of these inclusive ranges.
    ByteClass(Vec<(u8, u8)>),
    /// Matches `sub` from `min` up to `max` times (no upper bound for `None`).
    Repetition { min: u32, max: Option<u32>, sub: Box<Node> },
    /// A capturing group around `sub`.
    Capture(Box<Node>),
    /// Matches each part in turn.
    Concat(Vec<Node>),
    /// Matches any one of the parts, the leftmost preferred.
    Alternation(Vec<Node>),
}

/// A parsed pattern: its syntax tree, and the byte length of the shortest
/// string that it matches (`None` when it matches nothing).
#[derive(Debug)]
pub struct Parsed {
    pub tree: Node,
    pub minimum_len: Option<usize>,
}

impl Parsed {
    /// Parses a pattern with regex-syntax.
    pub fn parse(pattern: &str) -> (res: Result<Parsed, Error>)
        ensures
            res is Ok <==> syntax_tree(pattern@) is Some,
            res matches Ok(p) ==> syntax_tree(pattern@) == Some(p.tree)
                && p.minimum_len == syntax_minimum_len(pattern@),
            res matches Err(e) ==> e is Parse,
    {
        match parse_pattern(pattern) {
            Ok(p) => Ok(p),
            Err(e) => Err(Error::Parse(e)),
        }
    }
}

/// The tree of what `regex_syntax::Parser::new().parse` returns for a
/// pattern, or `None` where it returns an error.
pub uninterp spec fn syntax_tree(pattern: Seq<char>) -> Option<Node>;

/// What `Properties::minimum_len` returns for the `Hir` that the parser makes
/// of a pattern.
pub uninterp spec fn syntax_minimum_len(pattern: Seq<char>) -> Option<usize>;

/// Parses `pattern` with `regex_syntax::Parser::new().parse`, and returns the
/// tree of the resulting `Hir` with its `properties().minimum_len()`. The
/// contract claims that the outcome depends on the pattern alone: `Ok`
/// exactly where the parser accepts it, with the named tree and length. Which
/// error the parser reports is left unsaid.
#[verifier::external_body]
pub(crate) fn parse_pattern(pattern: &str) -> (res: Result<Parsed, SyntaxError>)
    ensures
        res is Ok <==> syntax_tree(pattern@) is Some,
        res matches Ok(p) ==> syntax_tree(pattern@) == Some(p.tree)
            && p.minimum_len == syntax_minimum_len(pattern@),
{
    let hir = Parser::new().parse(pattern)?;
    Ok(Parsed { minimum_len: hir.properties().minimum_len(), tree: tree_of(&hir) })
}

/// Converts a `Hir` into a `Node`, variant for variant, keeping the literal
/// bytes, the repetition bounds and the children in order. Nothing is claimed
/// of it beyond what `parse_pattern` claims.
#[verifier::external_body]
fn tree_of(hir: &Hir) -> Node {
    match hir.kind() {
        HirKind::Empty => Node::Empty,
        HirKind::Look(look) => Node::Look(assertion_of(look)),
        HirKind::Literal(lit) => Node::Literal(lit.0.to_vec()),
        HirKind::Class(class) => class_of(class),
        HirKind::Repetition(r) => Node::Repetition { min: r.min, max: r.max, sub: Box::new(tree_of(&r.sub)) },
        HirKind::Capture(c) => Node::Capture(Box::new(tree_of(&c.sub))),
        HirKind::Concat(subs) => Node::Concat(subs.iter().map(tree_of).collect()),
        HirKind::Alternation(subs) => Node::Alternation(subs.iter().map(tree_of).collect()),
    }
}

/// Converts a `Look` into the assertion it tests, one arm per kind.
#[verifier::external_body]
fn assertion_of(look: &Look) -> Assertion {
    match look {
        Look::Start => Assertion::TextStart,
        Look::End => Assertion::TextEnd,
        Look::StartLF | Look::StartCRLF => Assertion::LineStart,
        Look::EndLF | Look::EndCRLF => Assertion::LineEnd,
        Look::WordAscii | Look::WordAsciiNegate | Look::WordUnicode | Look::WordUnicodeNegate
        | Look::WordStartAscii | Look::WordEndAscii | Look::WordStartUnicode | Look::WordEndUnicode
        | Look::WordStartHalfAscii | Look::WordEndHalfAscii | Look::WordStartHalfUnicode
        | Look::WordEndHalfUnicode => Assertion::WordBoundary,
    }
}

/// Converts a `Class` into a `Node`, keeping its ranges in order.
#[verifier::external_body]
fn class_of(class: &Class) -> Node {
    match class {
        Class::Unicode(c) => Node::UnicodeClass(c.ranges().iter().map(|r| (r.start(), r.end())).collect()),
        Class::Bytes(c) => Node::ByteClass(c.ranges().iter().map(|r| (r.start(), r.end())).collect()),
    }
}

/// The tree matches only the empty string and holds no string-consuming
/// part: the empty pattern, assertions, and groups and concatenations of
/// those.
pub open spec fn zero_width(node: Node) -> bool
    decreases node, 0nat,
{
    match node {
        Node::Empty => true,
        Node::Look(_) => true,
        Node::Capture(sub) => zero_width(*sub),
        Node::Concat(parts) => all_zero_width(parts@, parts@.len()),
        _ => false,
    }
}

/// The first `n` of `parts` are zero-width.
pub open spec fn all_zero_width(parts: Seq<Node>, n: nat) -> bool
    decreases parts, n,
{
    if n == 0 || n > parts.len() {
        true
    } else {
        all_zero_width(parts, (n - 1) as nat) && zero_width(parts[n - 1])
    }
}

/// Every part from `lo` below `hi` is zero-width.
pub open spec fn zero_width_between(parts: Seq<Node>, lo: int, hi: int) -> bool {
    forall|i: int| lo <= i < hi ==> zero_width(#[trigger] parts[i])
}

/// Every assertion of the tree holds of every string it matches when the
/// whole string is matched: an assertion of a start only where nothing but
/// zero-width parts stand before it in the whole pattern (`at_start`), one
/// of an end only where nothing but zero-width parts follow it (`at_end`),
/// and none inside a repetition or testing a word boundary.
pub open spec fn anchors_ok(node: Node, at_start: bool, at_end: bool) -> bool
    decreases node, 0nat,
{
    match node {
        Node::Look(a) => match a {
            Assertion::TextStart => at_start,
            Assertion::LineStart => at_start,
            Assertion::TextEnd => at_end,
            Assertion::LineEnd => at_end,
            Assertion::WordBoundary => false,
        },
        Node::Capture(sub) => anchors_ok(*sub, at_start, at_end),
        Node::Repetition { sub, .. } => anchors_ok(*sub, false, false),
        Node::Concat(parts) => concat_anchors_ok(parts@, parts@.len(), at_start, at_end),
        Node::Alternation(parts) => alt_anchors_ok(parts@, parts@.len(), at_start, at_end),
        _ => true,
    }
}

/// `anchors_ok` for the first `n` parts of a concatenation.
pub open spec fn concat_anchors_ok(parts: Seq<Node>, n: nat, at_start: bool, at_end: bool) -> bool
    decreases parts, n,
{
    if n == 0 || n > parts.len() {
        true
    } else {
        &&& concat_anchors_ok(parts, (n - 1) as nat, at_start, at_end)
        &&& anchors_ok(
            parts[n - 1],
            at_start && zero_width_between(parts, 0, n - 1),
            at_end && zero_width_between(parts, n as int, parts.len() as int),
        )
    }
}

/// `anchors_ok` for the first `n` parts of an alternation.
pub open spec fn alt_anchors_ok(parts: Seq<Node>, n: nat, at_start: bool, at_end: bool) -> bool
    decreases parts, n,
{
    if n == 0 || n > parts.len() {
        true
    } else {
        alt_anchors_ok(parts, (n - 1) as nat, at_start, at_end) && anchors_ok(parts[n - 1], at_start, at_end)
    }
}

/// Whether the tree is zero-width.
fn is_zero_width(node: &Node) -> (b: bool)
    ensures
        b == zero_width(*node),
    decreases node,
{
    match node {
        Node::Empty => true,
        Node::Look(_) => true,
        Node::Capture(sub) => is_zero_width(sub),
        Node::Concat(parts) => parts_zero_width(parts),
        _ => false,
    }
}

fn parts_zero_width(parts: &Vec<Node>) -> (b: bool)
    ensures
        b == all_zero_width(parts@, parts@.len()),
    decreases parts, parts@.len(),
{
    let mut i: usize = 0;
    while i < parts.len()
        invariant
            i <= parts.len(),
            all_zero_width(parts@, i as nat),
        decreases parts.len() - i,
    {
        if !is_zero_width(&parts[i]) {
            proof {
                if all_zero_width(parts@, parts@.len()) {
                    lemma_all_zero_width_prefix(parts@, parts@.len(), (i + 1) as nat);
                }
            }
            return false;
        }
        i = i + 1;
    }
    true
}

proof fn lemma_all_zero_width_prefix(parts: Seq<Node>, n: nat, m: nat)
    requires
        m <= n <= parts.len(),
        all_zero_width(parts, n),
    ensures
        all_zero_width(parts, m),
    decreases n,
{
    if m < n {
        lemma_all_zero_width_prefix(parts, (n - 1) as nat, m);
    }
}

/// Whether every assertion of the tree holds in place, as `anchors_ok` says.
pub fn anchors_in_place(node: &Node, at_start: bool, at_end: bool) -> (b: bool)
    ensures
        b == anchors_ok(*node, at_start, at_end),
    decreases node,
{
    match node {
        Node::Look(a) => match a {
            Assertion::TextStart => at_start,
            Assertion::LineStart => at_start,
            Assertion::TextEnd => at_end,
            Assertion::LineEnd => at_end,
            Assertion::WordBoundary => false,
        },
        Node::Capture(sub) => anchors_in_place(sub, at_start, at_end),
        Node::Repetition { sub, .. } => anchors_in_place(sub, false, false),
        Node::Concat(parts) => concat_anchors(parts, at_start, at_end),
        Node::Alternation(parts) => alt_anchors(parts, at_start, at_end),
        _ => true,
    }
}

fn concat_anchors(parts: &Vec<Node>, at_start: bool, at_end: bool) -> (b: bool)
    ensures
        b == concat_anchors_ok(parts@, parts@.len(), at_start, at_end),
    decreases parts, parts@.len(),
{
    let n = parts.len();
    let mut zw: Vec<bool> = Vec::new();
    let mut k: usize = 0;
    while k < n
        invariant
            n == parts@.len(),
            k <= n,
            zw@.len() == k,
            forall|j: int| 0 <= j < k ==> zw@[j] == zero_width(parts@[j]),
        decreases n - k,
    {
        zw.push(is_zero_width(&parts[k]));
        k = k + 1;
    }
    let mut ok = true;
    let mut before = true;
    let mut i: usize = 0;
    while i < n
        invariant
            n == parts@.len(),
            i <= n,
            zw@.len() == n,
            forall|j: int| 0 <= j < n ==> zw@[j] == zero_width(parts@[j]),
            before == zero_width_between(parts@, 0, i as int),
            ok == concat_anchors_ok(parts@, i as nat, at_start, at_end),
        decreases n - i,
    {
        let mut after = true;
        let mut j: usize = n;
        while j > i + 1
            invariant
                n == parts@.len(),
                i + 1 <= j <= n,
                zw@.len() == n,
                forall|q: int| 0 <= q < n ==> zw@[q] == zero_width(parts@[q]),
                after == zero_width_between(parts@, j as int, n as int),
            decreases j,
        {
            j = j - 1;
            after = after && zw[j];
        }
        let here = anchors_in_place(&parts[i], at_start && before, at_end && after);
        ok = ok && here;
        before = before && zw[i];
        i = i + 1;
    }
    ok
}

fn alt_anchors(parts: &Vec<Node>, at_start: bool, at_end: bool) -> (b: bool)
    ensures
        b == alt_anchors_ok(parts@, parts@.len(), at_start, at_end),
    decreases parts, parts@.len(),
{
    let mut ok = true;
    let mut i: usize = 0;
    while i < parts.len()
        invariant
            i <= parts.len(),
            ok == alt_anchors_ok(parts@, i as nat, at_start, at_end),
        decreases parts.len() - i,
    {
        let here = anchors_in_place(&parts[i], at_start, at_end);
        ok = ok && here;
        i = i + 1;
    }
    ok
}

} // verus!
