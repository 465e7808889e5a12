//! A pattern with its length constraints: analysis and generation.
use crate::bytesize::push_char;
use crate::calculate;
use crate::calculate::{node_ok, spec_dist, spec_filtered, spec_stats, Stats};
use crate::error::{Bound, Error};
use crate::generate::{chars_of, spec_candidates, Generate};
use crate::natural::Natural;
use crate::matcher::{compile, is_match, regex_compiles, regex_is_match, Matcher};
use crate::syntax::{anchors_ok, syntax_minimum_len, syntax_tree, Node, Parsed};
use crate::unique::spec_unique;
use vstd::prelude::*;

verus! {

/// Minimum and optional maximum Byte Length of the strings in a Corpus.
#[derive(Debug, Clone, PartialEq, Eq, Structural)]
pub struct LengthConstraints {
    pub min: usize,
    pub max: Option<usize>,
}

impl LengthConstraints {
    /// The minimum does not exceed the maximum.
    pub open spec fn spec_valid(&self) -> bool {
        match self.max {
            Some(max) => self.min <= max,
            None => true,
        }
    }

    /// `Ok` exactly when the minimum does not exceed the maximum.
    pub fn validate(&self) -> (res: Result<(), Error>)
        ensures
            res is Ok <==> self.spec_valid(),
            res matches Err(e) ==> e == Error::MinExceedsMax,
    {
        if let Some(max) = self.max {
            if self.min > max {
                return Err(Error::MinExceedsMax);
            }
        }
        Ok(())
    }

    /// `len` lies within the constraints.
    pub open spec fn admits(&self, len: nat) -> bool {
        self.min <= len && match self.max {
            Some(max) => len <= max,
            None => true,
        }
    }
}

/// The source that `regex` compiles for a pattern: the pattern anchored at
/// both ends.
pub open spec fn anchored(pattern: Seq<char>) -> Seq<char> {
    "^(?:"@ + pattern + ")$"@
}

/// The UTF-8 byte length of a string, as `str::len` reports it.
pub open spec fn byte_len(s: Seq<char>) -> usize {
    vstd::utf8::encode_utf8(s).len() as usize
}

/// The order in which generation walks the pattern.
#[derive(Debug, Clone, Copy, PartialEq, Eq, Structural)]
pub enum GenerationOrder {
    /// Regex traversal order: in a concatenation or repetition, the first
    /// part varies slowest.
    Default,
    /// In a concatenation or repetition, the last part varies slowest.
    Inverted,
}

/// What the receiver of a generated string asks for next.
#[derive(Debug, Clone, Copy, PartialEq, Eq, Structural)]
pub enum GenerationControl {
    Continue,
    Stop,
}

/// How to emit the strings of a Corpus: the caps, the start and stop
/// strings, the Emission Transform and the Generation Order.
#[derive(Debug)]
pub struct GenerationRequest {
    pub limit: Option<u64>,
    pub max_total_bytes: Option<Natural>,
    pub start_string: Option<String>,
    pub stop_string: Option<String>,
    pub reverse_strings: bool,
    pub order: GenerationOrder,
}

impl GenerationControl {
    /// Whether generation goes on after this answer.
    pub fn continues(&self) -> (b: bool)
        ensures
            b <==> *self == GenerationControl::Continue,
    {
        match self {
            GenerationControl::Continue => true,
            GenerationControl::Stop => false,
        }
    }
}

/// The receiver of generated strings.
pub trait Emit {
    /// Takes one generated string; answers whether generation goes on.
    fn emit(&mut self, s: &str) -> GenerationControl;
}

/// A receiver, with the record of the strings handed to it and of its
/// answers.
pub struct Recorder<E> {
    pub sink: E,
    handed: Ghost<Seq<Seq<char>>>,
    answers: Ghost<Seq<GenerationControl>>,
}

impl<E: Emit> Recorder<E> {
    /// The strings handed to the receiver so far, in order.
    pub closed spec fn handed(&self) -> Seq<Seq<char>> {
        self.handed@
    }

    /// The receiver.
    pub closed spec fn receiver(&self) -> E {
        self.sink
    }

    /// The receiver's answers so far, one per string handed to it.
    pub closed spec fn answers(&self) -> Seq<GenerationControl> {
        self.answers@
    }

    /// A receiver with an empty record.
    pub fn new(sink: E) -> (r: Recorder<E>)
        ensures
            r.receiver() == sink,
            r.handed() == Seq::<Seq<char>>::empty(),
            r.answers() == Seq::<GenerationControl>::empty(),
    {
        Recorder { sink, handed: Ghost(Seq::empty()), answers: Ghost(Seq::empty()) }
    }

    /// Hands `s` to the receiver and records it with the answer.
    pub fn emit(&mut self, s: &str) -> (c: GenerationControl)
        ensures
            final(self).handed() == old(self).handed().push(s@),
            final(self).answers() == old(self).answers().push(c),
    {
        let c = self.sink.emit(s);
        proof {
            self.handed@ = self.handed@.push(s@);
            self.answers@ = self.answers@.push(c);
        }
        c
    }
}

/// The record of a receiver after generation handed it a prefix of `list`:
/// the strings handed before, then `list` up to the first answer `Stop`
/// (included), or all of `list` where it never answered `Stop`; and one
/// answer per string handed over.
pub open spec fn delivered(
    list: Seq<Seq<char>>,
    handed0: Seq<Seq<char>>,
    answers0: Seq<GenerationControl>,
    handed: Seq<Seq<char>>,
    answers: Seq<GenerationControl>,
) -> bool {
    let k = answers.len() - answers0.len();
    &&& answers0.len() <= answers.len()
    &&& answers.take(answers0.len() as int) == answers0
    &&& k <= list.len()
    &&& handed == handed0 + list.take(k)
    &&& forall|j: int| answers0.len() <= j < answers.len() - 1 ==> answers[j] == GenerationControl::Continue
    &&& k < list.len() ==> k > 0 && answers.last() == GenerationControl::Stop
}

/// The characters of an optional string.
pub open spec fn opt_chars(o: Option<String>) -> Option<Seq<char>> {
    match o {
        Some(s) => Some(s@),
        None => None,
    }
}

/// The strings emitted for the candidates `cands` under `request`, from a
/// state where the start string has (or has not) been met, `emitted` strings
/// and `total` bytes have gone out: candidates before the start string are
/// skipped; emission ends before the Generation Limit or the Total Byte Limit
/// would be passed, and after the stop string; each string goes out reversed
/// where the request asks for it.
pub open spec fn selection(cands: Seq<Seq<char>>, request: GenerationRequest, started: bool, emitted: nat, total: nat) -> Seq<Seq<char>>
    decreases cands.len(),
{
    if cands.len() == 0 {
        seq![]
    } else {
        let s = cands[0];
        if !started && opt_chars(request.start_string) != Some(s) {
            selection(cands.drop_first(), request, false, emitted, total)
        } else if request.limit matches Some(limit) && emitted >= limit {
            seq![]
        } else if request.max_total_bytes matches Some(max) && total + byte_len(s) as nat > max@ {
            seq![]
        } else {
            let out = if request.reverse_strings { s.reverse() } else { s };
            if opt_chars(request.stop_string) == Some(s) {
                seq![out]
            } else {
                seq![out] + selection(cands.drop_first(), request, true, emitted + 1, total + byte_len(s) as nat)
            }
        }
    }
}

/// The string emitted for a candidate: the candidate itself, or reversed
/// where the request asks for it.
pub open spec fn emitted_form(s: Seq<char>, reverse: bool) -> Seq<char> {
    if reverse { s.reverse() } else { s }
}

/// The total Byte Length of a list of strings.
pub open spec fn total_bytes(ss: Seq<Seq<char>>) -> nat
    decreases ss.len(),
{
    if ss.len() == 0 { 0 } else { byte_len(ss[0]) as nat + total_bytes(ss.drop_first()) }
}

proof fn lemma_encode_concat(a: Seq<char>, b: Seq<char>)
    ensures
        vstd::utf8::encode_utf8(a + b) == vstd::utf8::encode_utf8(a) + vstd::utf8::encode_utf8(b),
    decreases a.len(),
{
    if a.len() == 0 {
        assert(a + b =~= b);
        assert(vstd::utf8::encode_utf8(a) =~= Seq::<u8>::empty());
        assert(Seq::<u8>::empty() + vstd::utf8::encode_utf8(b) =~= vstd::utf8::encode_utf8(b));
    } else {
        lemma_encode_concat(a.drop_first(), b);
        assert((a + b).drop_first() =~= a.drop_first() + b);
        assert((a + b)[0] == a[0]);
        assert(vstd::utf8::encode_scalar(a[0] as u32) + (vstd::utf8::encode_utf8(a.drop_first()) + vstd::utf8::encode_utf8(b))
            =~= (vstd::utf8::encode_scalar(a[0] as u32) + vstd::utf8::encode_utf8(a.drop_first())) + vstd::utf8::encode_utf8(b));
    }
}

/// Reversing the characters of a string keeps its Byte Length.
pub proof fn lemma_reverse_byte_len(s: Seq<char>)
    ensures
        vstd::utf8::encode_utf8(s.reverse()).len() == vstd::utf8::encode_utf8(s).len(),
    decreases s.len(),
{
    if s.len() > 0 {
        let rest = s.drop_first();
        lemma_reverse_byte_len(rest);
        assert(s.reverse() =~= rest.reverse() + seq![s[0]]);
        lemma_encode_concat(rest.reverse(), seq![s[0]]);
        assert(seq![s[0]].drop_first() =~= Seq::<char>::empty());
        assert(vstd::utf8::encode_utf8(seq![s[0]]) == vstd::utf8::encode_scalar(s[0] as u32) + vstd::utf8::encode_utf8(Seq::<char>::empty()));
    }
}

/// The Generation Limit: with a limit, no more strings go out than it
/// allows, counting those already out.
pub proof fn law_generation_limit(cands: Seq<Seq<char>>, request: GenerationRequest, started: bool, emitted: nat, total: nat)
    requires
        request.limit matches Some(limit) ==> emitted <= limit,
    ensures
        request.limit matches Some(limit) ==> emitted + selection(cands, request, started, emitted, total).len() <= limit,
    decreases cands.len(),
{
    if cands.len() > 0 {
        let s = cands[0];
        if !started && opt_chars(request.start_string) != Some(s) {
            law_generation_limit(cands.drop_first(), request, false, emitted, total);
        } else if request.limit matches Some(limit) && emitted >= limit {
        } else if request.max_total_bytes matches Some(max) && total + byte_len(s) as nat > max@ {
        } else if opt_chars(request.stop_string) == Some(s) {
        } else {
            law_generation_limit(cands.drop_first(), request, true, emitted + 1, total + byte_len(s) as nat);
        }
    }
}

/// The Total Byte Limit: with a limit, the strings that go out, added to the
/// bytes already out, never exceed it.
pub proof fn law_total_byte_limit(cands: Seq<Seq<char>>, request: GenerationRequest, started: bool, emitted: nat, total: nat)
    requires
        request.max_total_bytes matches Some(max) ==> total <= max@,
    ensures
        request.max_total_bytes matches Some(max) ==> total + total_bytes(selection(cands, request, started, emitted, total)) <= max@,
    decreases cands.len(),
{
    let sel = selection(cands, request, started, emitted, total);
    if cands.len() == 0 {
        assert(total_bytes(sel) == 0);
    } else {
        let s = cands[0];
        if !started && opt_chars(request.start_string) != Some(s) {
            law_total_byte_limit(cands.drop_first(), request, false, emitted, total);
        } else if request.limit matches Some(limit) && emitted >= limit {
            assert(total_bytes(sel) == 0);
        } else if request.max_total_bytes matches Some(max) && total + byte_len(s) as nat > max@ {
            assert(total_bytes(sel) == 0);
        } else {
            let out = emitted_form(s, request.reverse_strings);
            lemma_reverse_byte_len(s);
            assert(byte_len(out) == byte_len(s));
            if opt_chars(request.stop_string) == Some(s) {
                assert(sel =~= seq![out]);
                assert(sel.drop_first() =~= Seq::<Seq<char>>::empty());
                assert(total_bytes(sel) == byte_len(out) as nat + total_bytes(sel.drop_first()));
                assert(total_bytes(sel.drop_first()) == 0);
            } else {
                let rest = selection(cands.drop_first(), request, true, emitted + 1, total + byte_len(s) as nat);
                law_total_byte_limit(cands.drop_first(), request, true, emitted + 1, total + byte_len(s) as nat);
                assert(sel == seq![out] + rest);
                assert(sel.drop_first() =~= rest);
                assert(sel[0] == out);
                assert(total_bytes(sel) == byte_len(out) as nat + total_bytes(rest));
            }
        }
    }
}

/// The Start Match String: generation that starts at a string emits it
/// first.
pub proof fn law_start_string(cands: Seq<Seq<char>>, request: GenerationRequest, emitted: nat, total: nat)
    requires
        request.start_string is Some,
        selection(cands, request, false, emitted, total).len() > 0,
    ensures
        selection(cands, request, false, emitted, total)[0]
            == emitted_form(request.start_string.unwrap()@, request.reverse_strings),
    decreases cands.len(),
{
    let s = cands[0];
    if opt_chars(request.start_string) != Some(s) {
        law_start_string(cands.drop_first(), request, emitted, total);
    }
}

/// The Stop Match String: no string emitted before the last one is the stop
/// string's.
pub proof fn law_stop_string(cands: Seq<Seq<char>>, request: GenerationRequest, started: bool, emitted: nat, total: nat)
    requires
        request.stop_string is Some,
    ensures
        forall|i: int| 0 <= i < selection(cands, request, started, emitted, total).len() - 1
            ==> selection(cands, request, started, emitted, total)[i]
                != emitted_form(request.stop_string.unwrap()@, request.reverse_strings),
    decreases cands.len(),
{
    let sel = selection(cands, request, started, emitted, total);
    if cands.len() > 0 {
        let s = cands[0];
        let t = request.stop_string.unwrap()@;
        if !started && opt_chars(request.start_string) != Some(s) {
            law_stop_string(cands.drop_first(), request, false, emitted, total);
            assert(sel == selection(cands.drop_first(), request, false, emitted, total));
        } else if request.limit matches Some(limit) && emitted >= limit {
            assert(sel.len() == 0);
        } else if request.max_total_bytes matches Some(max) && total + byte_len(s) as nat > max@ {
            assert(sel.len() == 0);
        } else if opt_chars(request.stop_string) == Some(s) {
            assert(sel.len() == 1);
        } else {
            let rest = selection(cands.drop_first(), request, true, emitted + 1, total + byte_len(s) as nat);
            law_stop_string(cands.drop_first(), request, true, emitted + 1, total + byte_len(s) as nat);
            assert(sel == seq![emitted_form(s, request.reverse_strings)] + rest);
            assert(s != t);
            if request.reverse_strings {
                assert(s.reverse() != t.reverse()) by {
                    if s.reverse() == t.reverse() {
                        assert(s.reverse().reverse() =~= s);
                        assert(t.reverse().reverse() =~= t);
                    }
                }
            }
            assert forall|i: int| 0 <= i < sel.len() - 1
                implies sel[i] != emitted_form(t, request.reverse_strings) by {
                if i > 0 {
                    assert(sel[i] == rest[i - 1]);
                }
            }
        }
    }
}

/// Whether, once the start string has been met, emission stops before the
/// candidate at `j`: the Generation Limit is reached by the `j` strings out
/// before it, or that candidate's Byte Length would take the bytes out past
/// the Total Byte Limit, or the stop string was the candidate before it.
pub open spec fn cut_at(cands: Seq<Seq<char>>, request: GenerationRequest, emitted: nat, total: nat, j: int) -> bool {
    ||| (request.limit matches Some(limit) && emitted + j >= limit)
    ||| (request.max_total_bytes matches Some(max)
        && total + total_bytes(cands.take(j)) + byte_len(cands[j]) as nat > max@)
    ||| (j > 0 && opt_chars(request.stop_string) == Some(cands[j - 1]))
}

/// Emission goes on as far as the caps allow: once started, it hands out the
/// candidates in order, each in its emitted form, up to the first where
/// `cut_at` holds, and no earlier. In particular a candidate whose Byte
/// Length brings the bytes out exactly to the Total Byte Limit goes out.
pub proof fn law_emission_maximal(cands: Seq<Seq<char>>, request: GenerationRequest, emitted: nat, total: nat)
    ensures
        selection(cands, request, true, emitted, total).len() <= cands.len(),
        selection(cands, request, true, emitted, total) == cands.take(
            selection(cands, request, true, emitted, total).len() as int,
        ).map_values(|s: Seq<char>| emitted_form(s, request.reverse_strings)),
        forall|j: int| 0 <= j < selection(cands, request, true, emitted, total).len()
            ==> !cut_at(cands, request, emitted, total, j),
        selection(cands, request, true, emitted, total).len() < cands.len()
            ==> cut_at(cands, request, emitted, total, selection(cands, request, true, emitted, total).len() as int),
    decreases cands.len(),
{
    let f = |s: Seq<char>| emitted_form(s, request.reverse_strings);
    let sel = selection(cands, request, true, emitted, total);
    assert(total_bytes(cands.take(0)) == 0) by {
        assert(cands.take(0).len() == 0);
    }
    if cands.len() == 0 {
        assert(sel =~= cands.take(0).map_values(f));
    } else {
        let s = cands[0];
        let rest_c = cands.drop_first();
        if request.limit matches Some(limit) && emitted >= limit {
            assert(sel =~= cands.take(0).map_values(f));
        } else if request.max_total_bytes matches Some(max) && total + byte_len(s) as nat > max@ {
            assert(sel =~= cands.take(0).map_values(f));
        } else if opt_chars(request.stop_string) == Some(s) {
            assert(sel =~= cands.take(1).map_values(f));
            assert(!cut_at(cands, request, emitted, total, 0));
            if 1 < cands.len() {
                assert(cut_at(cands, request, emitted, total, 1));
            }
        } else {
            let e2 = emitted + 1;
            let t2 = total + byte_len(s) as nat;
            let rest = selection(rest_c, request, true, e2, t2);
            law_emission_maximal(rest_c, request, e2, t2);
            assert(sel == seq![emitted_form(s, request.reverse_strings)] + rest);
            assert(sel =~= cands.take(sel.len() as int).map_values(f)) by {
                assert forall|i: int| 0 <= i < sel.len() implies sel[i] == cands.take(sel.len() as int).map_values(f)[i] by {
                    if i > 0 {
                        assert(sel[i] == rest[i - 1]);
                        assert(rest[i - 1] == rest_c.take(rest.len() as int).map_values(f)[i - 1]);
                        assert(rest_c[i - 1] == cands[i]);
                    }
                }
            }
            assert forall|j: int| 0 <= j < rest_c.len() implies
                cut_at(cands, request, emitted, total, j + 1) == cut_at(rest_c, request, e2, t2, j) by {
                assert(cands.take(j + 1).drop_first() =~= rest_c.take(j));
                assert(cands.take(j + 1)[0] == s);
                assert(total_bytes(cands.take(j + 1)) == byte_len(s) as nat + total_bytes(rest_c.take(j)));
                assert(cands[j + 1] == rest_c[j]);
                if j > 0 {
                    assert(cands[j] == rest_c[j - 1]);
                }
            }
            assert(!cut_at(cands, request, emitted, total, 0));
            assert forall|j: int| 0 <= j < sel.len() implies !cut_at(cands, request, emitted, total, j) by {
                if j > 0 {
                    assert(cut_at(cands, request, emitted, total, j) == cut_at(rest_c, request, e2, t2, j - 1));
                }
            }
            if sel.len() < cands.len() {
                assert(cut_at(cands, request, emitted, total, sel.len() as int)
                    == cut_at(rest_c, request, e2, t2, rest.len() as int));
            }
        }
    }
}

/// Emission is a cut: the strings that go out are the candidates from some
/// position to some later one, each in its emitted form, with nothing
/// skipped or reordered between; once the start string has been met, the
/// cut begins at the first candidate.
pub proof fn law_emission_is_a_cut(cands: Seq<Seq<char>>, request: GenerationRequest, started: bool, emitted: nat, total: nat)
    ensures
        exists|i: int, j: int| {
            &&& 0 <= i <= j <= cands.len()
            &&& (started ==> i == 0)
            &&& selection(cands, request, started, emitted, total)
                == cands.subrange(i, j).map_values(|s: Seq<char>| emitted_form(s, request.reverse_strings))
        },
    decreases cands.len(),
{
    let f = |s: Seq<char>| emitted_form(s, request.reverse_strings);
    let sel = selection(cands, request, started, emitted, total);
    if cands.len() == 0 {
        assert(sel =~= cands.subrange(0, 0).map_values(f));
    } else {
        let s = cands[0];
        let rest_c = cands.drop_first();
        if !started && opt_chars(request.start_string) != Some(s) {
            law_emission_is_a_cut(rest_c, request, false, emitted, total);
            let (i, j) = choose|i: int, j: int| {
                &&& 0 <= i <= j <= rest_c.len()
                &&& selection(rest_c, request, false, emitted, total) == rest_c.subrange(i, j).map_values(f)
            };
            assert(rest_c.subrange(i, j) =~= cands.subrange(i + 1, j + 1));
        } else if request.limit matches Some(limit) && emitted >= limit {
            assert(sel =~= cands.subrange(0, 0).map_values(f));
        } else if request.max_total_bytes matches Some(max) && total + byte_len(s) as nat > max@ {
            assert(sel =~= cands.subrange(0, 0).map_values(f));
        } else if opt_chars(request.stop_string) == Some(s) {
            assert(sel =~= cands.subrange(0, 1).map_values(f));
        } else {
            let e2 = emitted + 1;
            let t2 = total + byte_len(s) as nat;
            law_emission_is_a_cut(rest_c, request, true, e2, t2);
            let (i, j) = choose|i: int, j: int| {
                &&& 0 <= i <= j <= rest_c.len()
                &&& (true ==> i == 0)
                &&& selection(rest_c, request, true, e2, t2) == rest_c.subrange(i, j).map_values(f)
            };
            assert(sel =~= cands.subrange(0, j + 1).map_values(f));
        }
    }
}

/// The characters of `s` in reverse order.
fn reversed(s: &str) -> (r: String)
    ensures
        r@ == s@.reverse(),
{
    let n = s.unicode_len();
    let mut r = String::new();
    let mut i: usize = n;
    while i > 0
        invariant
            i <= n,
            n == s@.len(),
            r@ == s@.reverse().take((n - i) as int),
        decreases i,
    {
        i = i - 1;
        let c = s.get_char(i);
        push_char(&mut r, c);
        assert(r@ =~= s@.reverse().take((n - i) as int));
    }
    assert(s@.reverse().take(n as int) =~= s@.reverse());
    r
}

/// A pattern, parsed and compiled, with its length constraints.
pub struct Corpus {
    parsed: Parsed,
    matcher: Matcher,
    constraints: LengthConstraints,
}

impl Corpus {
    /// The syntax tree of the pattern.
    pub closed spec fn tree(&self) -> Node {
        self.parsed.tree
    }

    /// The shortest Byte Length the pattern matches, as regex-syntax reports it.
    pub closed spec fn minimum_len(&self) -> Option<usize> {
        self.parsed.minimum_len
    }

    /// The source of the whole-string matcher.
    pub closed spec fn matcher_source(&self) -> Seq<char> {
        self.matcher.source()
    }

    /// The length constraints.
    pub closed spec fn spec_constraints(&self) -> LengthConstraints {
        self.constraints
    }

    /// Checks the constraints, compiles the anchored pattern and parses the
    /// pattern, failing at the first of these that fails.
    pub fn new(pattern: &str, constraints: LengthConstraints) -> (res: Result<Corpus, Error>)
        ensures
            res is Ok <==> constraints.spec_valid() && regex_compiles(anchored(pattern@))
                && syntax_tree(pattern@) is Some,
            res matches Ok(c) ==> {
                &&& Some(c.tree()) == syntax_tree(pattern@)
                &&& c.minimum_len() == syntax_minimum_len(pattern@)
                &&& c.matcher_source() == anchored(pattern@)
                &&& c.spec_constraints() == constraints
            },
            res matches Err(e) ==> {
                &&& !constraints.spec_valid() ==> e == Error::MinExceedsMax
                &&& constraints.spec_valid() && !regex_compiles(anchored(pattern@)) ==> e is Regex
                &&& constraints.spec_valid() && regex_compiles(anchored(pattern@)) ==> e is Parse
            },
    {
        constraints.validate()?;
        let mut source = String::from_str("^(?:");
        source.append(pattern);
        source.append(")$");
        proof {
            reveal_strlit("^(?:");
            reveal_strlit(")$");
        }
        assert(source@ == anchored(pattern@));
        let matcher = match compile(source.as_str()) {
            Ok(m) => m,
            Err(e) => return Err(Error::Regex(e)),
        };
        let parsed = Parsed::parse(pattern)?;
        Ok(Corpus { parsed, matcher, constraints })
    }

    /// The length constraints.
    pub fn constraints(&self) -> (c: &LengthConstraints)
        ensures
            *c == self.spec_constraints(),
    {
        &self.constraints
    }

    /// Match Count and Corpus Byte Size of the Corpus.
    pub fn analyze(&self) -> (res: Result<Stats, Error>)
        ensures
            res is Ok <==> node_ok(self.tree()) && anchors_ok(self.tree(), true, true) && (
                spec_filtered(
                    spec_dist(self.tree(), self.spec_constraints().max),
                    self.spec_constraints().min,
                    self.spec_constraints().max,
                ).1 || spec_unique(self.tree())
            ),
            res matches Ok(st) ==> (st.count@, st.total_bytes@) == spec_stats(
                spec_filtered(
                    spec_dist(self.tree(), self.spec_constraints().max),
                    self.spec_constraints().min,
                    self.spec_constraints().max,
                ),
            ),
            res matches Err(e) ==> e == if !node_ok(self.tree()) {
                Error::Unsupported(crate::error::Unsupported::NonUtf8ByteClass)
            } else if !anchors_ok(self.tree(), true, true) {
                Error::Unsupported(crate::error::Unsupported::LookAround)
            } else {
                Error::Unsupported(crate::error::Unsupported::AmbiguousPattern)
            },
    {
        calculate::analyze(&self.parsed.tree, &self.constraints)
    }

    /// The outcome of checking a start or stop string: it must match the
    /// pattern, and its Byte Length must lie within the constraints.
    pub open spec fn spec_bound_check(&self, label: Bound, value: Option<String>) -> Result<(), Error> {
        match value {
            None => Ok(()),
            Some(v) => if !regex_is_match(self.matcher_source(), v@) {
                Err(Error::BoundMismatch(label))
            } else if !self.spec_constraints().admits(byte_len(v@) as nat) {
                Err(Error::BoundLength(label))
            } else {
                Ok(())
            },
        }
    }

    /// Checks the start and stop strings of a request, the start string first.
    pub fn validate_generation_request(&self, request: &GenerationRequest) -> (res: Result<(), Error>)
        ensures
            res == match self.spec_bound_check(Bound::Start, request.start_string) {
                Ok(()) => self.spec_bound_check(Bound::Stop, request.stop_string),
                Err(e) => Err(e),
            },
    {
        self.validate_bound(Bound::Start, &request.start_string)?;
        self.validate_bound(Bound::Stop, &request.stop_string)
    }

    fn validate_bound(&self, label: Bound, value: &Option<String>) -> (res: Result<(), Error>)
        ensures
            res == self.spec_bound_check(label, *value),
    {
        let value = match value {
            None => return Ok(()),
            Some(v) => v.as_str(),
        };
        if !is_match(&self.matcher, value) {
            return Err(Error::BoundMismatch(label));
        }
        let len = value.len();
        let too_long = match self.constraints.max {
            Some(max) => len > max,
            None => false,
        };
        if len < self.constraints.min || too_long {
            return Err(Error::BoundLength(label));
        }
        Ok(())
    }

    /// The constraints that generation runs under: only where the Corpus is
    /// unbounded (no maximum length, and analysis finds infinitely many
    /// strings) and a Generation Limit is given, the maximum becomes the
    /// shortest match length plus the limit, so that generation can end. A
    /// finite Corpus is generated whole, and the limit only stops emission.
    pub open spec fn spec_generation_constraints(&self, limit: Option<u64>) -> LengthConstraints {
        let c = self.spec_constraints();
        if c.max is Some || limit is None || !(node_ok(self.tree()) && spec_dist(self.tree(), None).1) {
            c
        } else {
            let min = match self.minimum_len() {
                Some(m) => m,
                None => 0,
            };
            LengthConstraints {
                min: c.min,
                max: Some(calculate::sat_add(min, limit.unwrap() as usize)),
            }
        }
    }

    /// The strings that generation emits for `request` when the receiver
    /// always asks for more, or why it fails.
    pub open spec fn spec_emission(&self, request: GenerationRequest) -> Result<Seq<Seq<char>>, Error> {
        match self.spec_bound_check(Bound::Start, request.start_string) {
            Err(e) => Err(e),
            Ok(()) => match self.spec_bound_check(Bound::Stop, request.stop_string) {
                Err(e) => Err(e),
                Ok(()) => match spec_candidates(self.tree(), self.spec_generation_constraints(request.limit), request.order) {
                    Err(e) => Err(e),
                    Ok(cands) => Ok(selection(cands, request, request.start_string is None, 0, 0)),
                },
            },
        }
    }

    /// The strings that generation emits for `request` when the receiver
    /// always asks for more.
    pub fn emission(&self, request: &GenerationRequest) -> (res: Result<Vec<String>, Error>)
        ensures
            match res {
                Ok(list) => self.spec_emission(*request) == Ok::<Seq<Seq<char>>, Error>(chars_of(list@)),
                Err(e) => self.spec_emission(*request) == Err::<Seq<Seq<char>>, Error>(e),
            },
    {
        self.validate_generation_request(request)?;
        let constraints = self.generation_constraints(request.limit);
        let cands = Generate::new().generate(&self.parsed.tree, &constraints, request.order)?;
        let ghost cv = chars_of(cands@);
        let ghost req = *request;
        let mut out: Vec<String> = Vec::new();
        let mut started = request.start_string.is_none();
        let mut emitted: u64 = 0;
        let mut total = Natural::zero();
        let mut i: usize = 0;
        assert(cv.skip(0) =~= cv);
        assert(chars_of(out@) =~= Seq::<Seq<char>>::empty());
        assert(chars_of(out@) + selection(cv, req, started, 0, 0) =~= selection(cv, req, started, 0, 0));
        while i < cands.len()
            invariant_except_break
                i <= cands.len(),
                emitted <= i,
                request.start_string is None ==> started,
                chars_of(out@) + selection(cv.skip(i as int), req, started, emitted as nat, total@)
                    == selection(cv, req, request.start_string is None, 0, 0),
            invariant
                cv == chars_of(cands@),
                req == *request,
            ensures
                chars_of(out@) == selection(cv, req, request.start_string is None, 0, 0),
            decreases cands.len() - i,
        {
            let s = cands[i].as_str();
            let ghost rest = cv.skip(i as int);
            assert(rest[0] == s@);
            assert(rest.drop_first() =~= cv.skip(i + 1));
            if !started {
                let is_start = match &request.start_string {
                    Some(t) => t.eq(&cands[i]),
                    None => false,
                };
                if is_start {
                    started = true;
                } else {
                    i = i + 1;
                    continue;
                }
            }
            let over_limit = match request.limit {
                Some(limit) => emitted >= limit,
                None => false,
            };
            if over_limit {
                assert(chars_of(out@) + Seq::<Seq<char>>::empty() =~= chars_of(out@));
                break;
            }
            let next_total = total.add(&Natural::from_usize(s.len()));
            let over_bytes = match &request.max_total_bytes {
                Some(max) => !max.ge(&next_total),
                None => false,
            };
            if over_bytes {
                assert(chars_of(out@) + Seq::<Seq<char>>::empty() =~= chars_of(out@));
                break;
            }
            let emitted_s = if request.reverse_strings { reversed(s) } else { String::from_str(s) };
            let is_stop = match &request.stop_string {
                Some(t) => t.eq(&cands[i]),
                None => false,
            };
            let ghost old_out = chars_of(out@);
            let ghost ev = emitted_s@;
            out.push(emitted_s);
            assert(chars_of(out@) =~= old_out.push(ev));
            emitted = emitted + 1;
            total = next_total;
            if is_stop {
                assert(old_out + seq![ev] =~= old_out.push(ev));
                break;
            }
            assert(old_out + (seq![ev] + selection(cv.skip(i + 1), req, true, emitted as nat, total@))
                =~= old_out.push(ev) + selection(cv.skip(i + 1), req, true, emitted as nat, total@));
            i = i + 1;
        }
        Ok(out)
    }

    /// Generates the strings of the Corpus for `request`, handing them one by
    /// one to `sink` until it answers `Stop`. The strings are those of
    /// `emission`, in order; on an error the sink receives nothing.
    pub fn generate<E: Emit>(&self, request: &GenerationRequest, sink: &mut Recorder<E>) -> (res: Result<(), Error>)
        ensures
            res is Ok <==> self.spec_emission(*request) is Ok,
            res matches Err(e) ==> self.spec_emission(*request) == Err::<Seq<Seq<char>>, Error>(e),
            res matches Err(_) ==> *final(sink) == *old(sink),
            res matches Ok(()) ==> delivered(
                self.spec_emission(*request)->Ok_0,
                old(sink).handed(),
                old(sink).answers(),
                final(sink).handed(),
                final(sink).answers(),
            ),
    {
        let list = self.emission(request)?;
        let ghost lv = chars_of(list@);
        let ghost r0 = sink.handed();
        let ghost a0 = sink.answers();
        let mut i: usize = 0;
        assert(lv.take(0) =~= Seq::<Seq<char>>::empty());
        assert(sink.answers().take(a0.len() as int) =~= a0);
        assert(r0 + lv.take(0) =~= r0);
        while i < list.len()
            invariant_except_break
                i <= list.len(),
                lv == chars_of(list@),
                sink.answers().len() == a0.len() + i,
                sink.answers().take(a0.len() as int) == a0,
                sink.handed() == r0 + lv.take(i as int),
                forall|j: int| a0.len() <= j < sink.answers().len() ==> sink.answers()[j] == GenerationControl::Continue,
            ensures
                delivered(lv, r0, a0, sink.handed(), sink.answers()),
            decreases list.len() - i,
        {
            let ghost ra = sink.handed();
            let ghost aa = sink.answers();
            let c = sink.emit(list[i].as_str());
            assert(lv[i as int] == list@[i as int]@);
            assert(sink.handed() =~= r0 + lv.take(i + 1));
            assert(sink.answers().take(a0.len() as int) =~= a0) by {
                assert(sink.answers().take(a0.len() as int) =~= aa.take(a0.len() as int));
            }
            if !c.continues() {
                assert(sink.answers().last() == GenerationControl::Stop);
                break;
            }
            i = i + 1;
        }
        Ok(())
    }

    fn generation_constraints(&self, limit: Option<u64>) -> (c: LengthConstraints)
        ensures
            c == self.spec_generation_constraints(limit),
    {
        if self.constraints.max.is_some() || limit.is_none() {
            return LengthConstraints { min: self.constraints.min, max: self.constraints.max };
        }
        match calculate::unbounded(&self.parsed.tree) {
            Ok(true) => {},
            _ => return LengthConstraints { min: self.constraints.min, max: self.constraints.max },
        }
        let min = match self.parsed.minimum_len {
            Some(m) => m,
            None => 0,
        };
        let lim = match limit {
            Some(l) => l as usize,
            None => 0,
        };
        LengthConstraints { min: self.constraints.min, max: Some(min.saturating_add(lim)) }
    }
}

} // verus!
