//! Enumeration of the strings that a syntax tree describes, in regex
//! traversal order.
use crate::calculate::{byte_class_ok, lemma_min_positive, min_positive, min_positive_len, node_ok, nodes_ok, spec_dist};
use crate::corpus::{GenerationOrder, LengthConstraints};
use crate::error::{Error, Unsupported};
use crate::syntax::{anchors_in_place, anchors_ok, Node};
use vstd::prelude::*;

verus! {

/// A list of byte strings.
pub type Strings = Seq<Seq<u8>>;

/// The byte strings that exec lists hold.
pub open spec fn strings_of(v: Seq<Vec<u8>>) -> Strings {
    v.map_values(|b: Vec<u8>| b@)
}

/// `len` is within the optional upper bound.
pub open spec fn fits(len: nat, max_len: Option<usize>) -> bool {
    match max_len {
        Some(max) => len <= max,
        None => true,
    }
}

/// `x` followed by each of `ys`, in order, kept where the result fits.
pub open spec fn join_one(x: Seq<u8>, ys: Strings, max_len: Option<usize>) -> Strings
    decreases ys.len(),
{
    if ys.len() == 0 {
        seq![]
    } else {
        let prev = join_one(x, ys.drop_last(), max_len);
        if fits(x.len() + ys.last().len(), max_len) { prev.push(x + ys.last()) } else { prev }
    }
}

/// Each of `xs` followed by `y`, in order, kept where the result fits.
pub open spec fn join_one_inv(xs: Strings, y: Seq<u8>, max_len: Option<usize>) -> Strings
    decreases xs.len(),
{
    if xs.len() == 0 {
        seq![]
    } else {
        let prev = join_one_inv(xs.drop_last(), y, max_len);
        if fits(xs.last().len() + y.len(), max_len) { prev.push(xs.last() + y) } else { prev }
    }
}

/// Every `x + y` that fits, `x` of `xs` varying slowest.
pub open spec fn join(xs: Strings, ys: Strings, max_len: Option<usize>) -> Strings
    decreases xs.len(),
{
    if xs.len() == 0 {
        seq![]
    } else {
        join(xs.drop_last(), ys, max_len) + join_one(xs.last(), ys, max_len)
    }
}

/// Every `x + y` that fits, `y` of `ys` varying slowest.
pub open spec fn join_inv(xs: Strings, ys: Strings, max_len: Option<usize>) -> Strings
    decreases ys.len(),
{
    if ys.len() == 0 {
        seq![]
    } else {
        join_inv(xs, ys.drop_last(), max_len) + join_one_inv(xs, ys.last(), max_len)
    }
}

/// The concatenations of `xs` with `ys` in the given order.
pub open spec fn combine(xs: Strings, ys: Strings, max_len: Option<usize>, order: GenerationOrder) -> Strings {
    match order {
        GenerationOrder::Default => join(xs, ys, max_len),
        GenerationOrder::Inverted => join_inv(xs, ys, max_len),
    }
}

/// The characters from `lo` to `hi` that fit, UTF-8 encoded, in order.
pub open spec fn range_strings(lo: u32, hi: int, max_len: Option<usize>) -> Strings
    decreases hi - lo + 1,
{
    if hi < lo {
        seq![]
    } else {
        let prev = range_strings(lo, hi - 1, max_len);
        let c = hi as u32;
        if vstd::utf8::is_scalar(c) && fits(vstd::utf8::encode_scalar(c).len(), max_len) {
            prev.push(vstd::utf8::encode_scalar(c))
        } else {
            prev
        }
    }
}

/// The characters of a Unicode class that fit, range by range.
pub open spec fn unicode_strings(ranges: Seq<(char, char)>, max_len: Option<usize>) -> Strings
    decreases ranges.len(),
{
    if ranges.len() == 0 {
        seq![]
    } else {
        unicode_strings(ranges.drop_last(), max_len)
            + range_strings(ranges.last().0 as u32, (ranges.last().1 as u32) as int, max_len)
    }
}

/// The one-byte strings of a byte class, range by range, where they fit.
pub open spec fn byte_strings(ranges: Seq<(u8, u8)>, max_len: Option<usize>) -> Strings
    decreases ranges.len(),
{
    if ranges.len() == 0 {
        seq![]
    } else {
        let r = ranges.last();
        byte_strings(ranges.drop_last(), max_len) + if r.0 <= r.1 && fits(1, max_len) {
            Seq::new((r.1 - r.0 + 1) as nat, |i: int| seq![(r.0 + i) as u8])
        } else {
            seq![]
        }
    }
}

/// The strings of `d` and more repetitions of `sub`, up to `bound`: the
/// repetition ends here once `min` is reached, else goes on with one more
/// string of `sub`.
pub open spec fn rep_strings(sub: Strings, min: nat, bound: nat, d: nat, max_len: Option<usize>, order: GenerationOrder) -> Strings
    decreases bound - d,
{
    let head: Strings = if d >= min { seq![seq![]] } else { seq![] };
    if d >= bound {
        head
    } else {
        head + combine(sub, rep_strings(sub, min, bound, d + 1, max_len, order), max_len, order)
    }
}

/// How many repetitions to generate: the upper bound, or where there is none,
/// as many as the shortest positive Byte Length that analysis finds for
/// `sub` fits into `max_len` (only the required ones where analysis finds
/// none); without `max_len` there is no bound.
pub open spec fn rep_bound(sub: Node, min: u32, max: Option<u32>, max_len: Option<usize>) -> Result<nat, Unsupported> {
    match max {
        Some(n) => Ok(n as nat),
        None => match max_len {
            None => Err(Unsupported::UnboundedGeneration),
            Some(limit) => match min_positive(spec_dist(sub, Some(limit)).0) {
                Some(m) => Ok((limit / m) as nat),
                None => Ok(min as nat),
            },
        },
    }
}

/// The strings that a tree describes that fit into `max_len`, in the given
/// order, or the first feature met on the way that generation does not
/// handle.
pub open spec fn spec_generate(node: Node, max_len: Option<usize>, order: GenerationOrder) -> Result<Strings, Unsupported>
    decreases node, 0nat,
{
    match node {
        Node::Empty => Ok(seq![seq![]]),
        Node::Look(_) => Ok(seq![seq![]]),
        Node::Literal(bytes) => Ok(if fits(bytes@.len(), max_len) { seq![bytes@] } else { seq![] }),
        Node::UnicodeClass(ranges) => Ok(unicode_strings(ranges@, max_len)),
        Node::ByteClass(ranges) => if byte_class_ok(ranges@) {
            Ok(byte_strings(ranges@, max_len))
        } else {
            Err(Unsupported::NonUtf8ByteClass)
        },
        Node::Capture(sub) => spec_generate(*sub, max_len, order),
        Node::Concat(parts) => spec_generate_concat(parts@, parts@.len(), max_len, order),
        Node::Alternation(parts) => spec_generate_alternation(parts@, parts@.len(), max_len, order),
        Node::Repetition { min, max, sub } => match spec_generate(*sub, max_len, order) {
            Err(e) => Err(e),
            Ok(s) => match rep_bound(*sub, min, max, max_len) {
                Err(e) => Err(e),
                Ok(bound) => Ok(rep_strings(s, min as nat, bound, 0, max_len, order)),
            },
        },
    }
}

/// The strings of the concatenation of the first `n` of `parts`.
pub open spec fn spec_generate_concat(parts: Seq<Node>, n: nat, max_len: Option<usize>, order: GenerationOrder) -> Result<Strings, Unsupported>
    decreases parts, n,
{
    if n == 0 || n > parts.len() {
        Ok(seq![seq![]])
    } else {
        match spec_generate_concat(parts, (n - 1) as nat, max_len, order) {
            Err(e) => Err(e),
            Ok(xs) => match spec_generate(parts[n - 1], max_len, order) {
                Err(e) => Err(e),
                Ok(ys) => Ok(combine(xs, ys, max_len, order)),
            },
        }
    }
}

/// The strings of the first `n` of `parts`, one part after the other.
pub open spec fn spec_generate_alternation(parts: Seq<Node>, n: nat, max_len: Option<usize>, order: GenerationOrder) -> Result<Strings, Unsupported>
    decreases parts, n,
{
    if n == 0 || n > parts.len() {
        Ok(seq![])
    } else {
        match spec_generate_alternation(parts, (n - 1) as nat, max_len, order) {
            Err(e) => Err(e),
            Ok(xs) => match spec_generate(parts[n - 1], max_len, order) {
                Err(e) => Err(e),
                Ok(ys) => Ok(xs + ys),
            },
        }
    }
}


proof fn lemma_strings_push(v: Seq<Vec<u8>>, b: Vec<u8>)
    ensures
        strings_of(v.push(b)) == strings_of(v).push(b@),
{
    assert(strings_of(v.push(b)) =~= strings_of(v).push(b@));
}

/// `x` then `y`.
fn concat_bytes(x: &Vec<u8>, y: &Vec<u8>) -> (r: Vec<u8>)
    ensures
        r@ == x@ + y@,
{
    let mut r: Vec<u8> = Vec::new();
    let mut i: usize = 0;
    while i < x.len()
        invariant
            i <= x.len(),
            r@ == x@.take(i as int),
        decreases x.len() - i,
    {
        r.push(x[i]);
        i = i + 1;
        assert(r@ =~= x@.take(i as int));
    }
    let mut j: usize = 0;
    assert(x@.take(i as int) =~= x@);
    while j < y.len()
        invariant
            j <= y.len(),
            r@ == x@ + y@.take(j as int),
        decreases y.len() - j,
    {
        r.push(y[j]);
        j = j + 1;
        assert(r@ =~= x@ + y@.take(j as int));
    }
    assert(y@.take(j as int) =~= y@);
    r
}

/// Appends `join_one(x, ys)` to `out`.
fn push_join_one(out: &mut Vec<Vec<u8>>, x: &Vec<u8>, ys: &Vec<Vec<u8>>, max_len: Option<usize>)
    ensures
        strings_of(final(out)@) == strings_of(old(out)@) + join_one(x@, strings_of(ys@), max_len),
{
    let ghost before = strings_of(out@);
    let ghost ysv = strings_of(ys@);
    let mut j: usize = 0;
    assert(before + join_one(x@, ysv.take(0), max_len) =~= before);
    while j < ys.len()
        invariant
            j <= ys.len(),
            ysv == strings_of(ys@),
            strings_of(out@) == before + join_one(x@, ysv.take(j as int), max_len),
        decreases ys.len() - j,
    {
        assert(ysv.take(j + 1).drop_last() =~= ysv.take(j as int));
        let y = &ys[j];
        let keep = match max_len {
            Some(max) => x.len() <= max && y.len() <= max - x.len(),
            None => true,
        };
        if keep {
            let xy = concat_bytes(x, y);
            proof { lemma_strings_push(out@, xy); }
            out.push(xy);
        }
        j = j + 1;
        assert(strings_of(out@) =~= before + join_one(x@, ysv.take(j as int), max_len));
    }
    assert(ysv.take(j as int) =~= ysv);
}

/// Appends `join_one_inv(xs, y)` to `out`.
fn push_join_one_inv(out: &mut Vec<Vec<u8>>, xs: &Vec<Vec<u8>>, y: &Vec<u8>, max_len: Option<usize>)
    ensures
        strings_of(final(out)@) == strings_of(old(out)@) + join_one_inv(strings_of(xs@), y@, max_len),
{
    let ghost before = strings_of(out@);
    let ghost xsv = strings_of(xs@);
    let mut i: usize = 0;
    assert(before + join_one_inv(xsv.take(0), y@, max_len) =~= before);
    while i < xs.len()
        invariant
            i <= xs.len(),
            xsv == strings_of(xs@),
            strings_of(out@) == before + join_one_inv(xsv.take(i as int), y@, max_len),
        decreases xs.len() - i,
    {
        assert(xsv.take(i + 1).drop_last() =~= xsv.take(i as int));
        let x = &xs[i];
        let keep = match max_len {
            Some(max) => x.len() <= max && y.len() <= max - x.len(),
            None => true,
        };
        if keep {
            let xy = concat_bytes(x, y);
            proof { lemma_strings_push(out@, xy); }
            out.push(xy);
        }
        i = i + 1;
        assert(strings_of(out@) =~= before + join_one_inv(xsv.take(i as int), y@, max_len));
    }
    assert(xsv.take(i as int) =~= xsv);
}

/// The concatenations of `xs` with `ys` in the given order.
fn combine_lists(xs: &Vec<Vec<u8>>, ys: &Vec<Vec<u8>>, max_len: Option<usize>, order: GenerationOrder) -> (out: Vec<Vec<u8>>)
    ensures
        strings_of(out@) == combine(strings_of(xs@), strings_of(ys@), max_len, order),
{
    let ghost xsv = strings_of(xs@);
    let ghost ysv = strings_of(ys@);
    let mut out: Vec<Vec<u8>> = Vec::new();
    match order {
        GenerationOrder::Default => {
            let mut i: usize = 0;
            assert(strings_of(out@) =~= join(xsv.take(0), ysv, max_len));
            while i < xs.len()
                invariant
                    i <= xs.len(),
                    xsv == strings_of(xs@),
                    ysv == strings_of(ys@),
                    strings_of(out@) == join(xsv.take(i as int), ysv, max_len),
                decreases xs.len() - i,
            {
                assert(xsv.take(i + 1).drop_last() =~= xsv.take(i as int));
                push_join_one(&mut out, &xs[i], ys, max_len);
                i = i + 1;
            }
            assert(xsv.take(i as int) =~= xsv);
        },
        GenerationOrder::Inverted => {
            let mut j: usize = 0;
            assert(strings_of(out@) =~= join_inv(xsv, ysv.take(0), max_len));
            while j < ys.len()
                invariant
                    j <= ys.len(),
                    xsv == strings_of(xs@),
                    ysv == strings_of(ys@),
                    strings_of(out@) == join_inv(xsv, ysv.take(j as int), max_len),
                decreases ys.len() - j,
            {
                assert(ysv.take(j + 1).drop_last() =~= ysv.take(j as int));
                push_join_one_inv(&mut out, xs, &ys[j], max_len);
                j = j + 1;
            }
            assert(ysv.take(j as int) =~= ysv);
        },
    }
    out
}

/// The UTF-8 encoding of the character with scalar value `c`
/// (`char::encode_utf8`).
fn encode_scalar_bytes(c: u32) -> (bytes: Vec<u8>)
    requires
        vstd::utf8::is_scalar(c),
    ensures
        bytes@ == vstd::utf8::encode_scalar(c),
{
    let mut bytes: Vec<u8> = Vec::new();
    if c <= 0x7F {
        bytes.push((c & 0x7F) as u8);
    } else if c <= 0x7FF {
        bytes.push(0xC0 | ((c >> 6) & 0x1F) as u8);
        bytes.push(0x80 | (c & 0x3F) as u8);
    } else if c <= 0xFFFF {
        bytes.push(0xE0 | ((c >> 12) & 0x0F) as u8);
        bytes.push(0x80 | ((c >> 6) & 0x3F) as u8);
        bytes.push(0x80 | (c & 0x3F) as u8);
    } else {
        bytes.push(0xF0 | ((c >> 18) & 0x7) as u8);
        bytes.push(0x80 | ((c >> 12) & 0x3F) as u8);
        bytes.push(0x80 | ((c >> 6) & 0x3F) as u8);
        bytes.push(0x80 | (c & 0x3F) as u8);
    }
    assert(bytes@ =~= vstd::utf8::encode_scalar(c));
    bytes
}

fn unicode_class_strings(ranges: &Vec<(char, char)>, max_len: Option<usize>) -> (out: Vec<Vec<u8>>)
    ensures
        strings_of(out@) == unicode_strings(ranges@, max_len),
{
    let mut out: Vec<Vec<u8>> = Vec::new();
    let mut i: usize = 0;
    while i < ranges.len()
        invariant
            i <= ranges.len(),
            strings_of(out@) == unicode_strings(ranges@.take(i as int), max_len),
        decreases ranges.len() - i,
    {
        let start = ranges[i].0 as u32;
        let end = ranges[i].1 as u32;
        proof { vstd::utf8::char_is_scalar(ranges@[i as int].1); }
        let ghost before = strings_of(out@);
        assert(ranges@.take(i + 1).last() == ranges@[i as int]);
        if start <= end {
            let mut c: u32 = start;
            assert(range_strings(start, start - 1, max_len) =~= Seq::<Seq<u8>>::empty());
            assert(before + Seq::<Seq<u8>>::empty() =~= before);
            while c <= end
                invariant
                    start <= c <= end + 1,
                    end <= 0x10FFFF,
                    strings_of(out@) == before + range_strings(start, c - 1, max_len),
                decreases end + 1 - c,
            {
                let scalar = !(0xD800 <= c && c <= 0xDFFF);
                if scalar {
                    let width: usize = if c <= 0x7F { 1 } else if c <= 0x7FF { 2 } else if c <= 0xFFFF { 3 } else { 4 };
                    let keep = match max_len {
                        Some(max) => width <= max,
                        None => true,
                    };
                    if keep {
                        let bytes = encode_scalar_bytes(c);
                        proof { lemma_strings_push(out@, bytes); }
                        out.push(bytes);
                    }
                }
                assert(strings_of(out@) =~= before + range_strings(start, c as int, max_len));
                c = c + 1;
            }
        } else {
            assert(range_strings(start, end as int, max_len) =~= Seq::<Seq<u8>>::empty());
            assert(before + Seq::<Seq<u8>>::empty() =~= before);
        }
        assert(strings_of(out@) == before + range_strings(start, end as int, max_len));
        assert(ranges@.take(i + 1).drop_last() =~= ranges@.take(i as int));
        assert(start == ranges@.take(i + 1).last().0 as u32);
        assert(end == ranges@.take(i + 1).last().1 as u32);
        i = i + 1;
    }
    assert(ranges@.take(i as int) =~= ranges@);
    out
}


fn byte_class_strings(ranges: &Vec<(u8, u8)>, max_len: Option<usize>) -> (out: Vec<Vec<u8>>)
    ensures
        strings_of(out@) == byte_strings(ranges@, max_len),
{
    let mut out: Vec<Vec<u8>> = Vec::new();
    let one_fits = match max_len {
        Some(max) => 1 <= max,
        None => true,
    };
    let mut i: usize = 0;
    while i < ranges.len()
        invariant
            i <= ranges.len(),
            one_fits == fits(1, max_len),
            strings_of(out@) == byte_strings(ranges@.take(i as int), max_len),
        decreases ranges.len() - i,
    {
        let start = ranges[i].0 as u16;
        let end = ranges[i].1 as u16;
        let ghost before = strings_of(out@);
        let ghost r = ranges@[i as int];
        assert(ranges@.take(i + 1).last() == r);
        assert(ranges@.take(i + 1).drop_last() =~= ranges@.take(i as int));
        if start <= end && one_fits {
            let mut b: u16 = start;
            assert(before + Seq::new(0, |k: int| seq![(r.0 + k) as u8]) =~= before);
            while b <= end
                invariant
                    start == r.0,
                    end == r.1,
                    start <= b <= end + 1,
                    end <= 0xFF,
                    strings_of(out@) == before + Seq::new((b - start) as nat, |k: int| seq![(r.0 + k) as u8]),
                decreases end + 1 - b,
            {
                let mut one: Vec<u8> = Vec::new();
                one.push(b as u8);
                proof { lemma_strings_push(out@, one); }
                out.push(one);
                b = b + 1;
                assert(strings_of(out@) =~= before + Seq::new((b - start) as nat, |k: int| seq![(r.0 + k) as u8]));
            }
        } else {
            assert(before + Seq::<Seq<u8>>::empty() =~= before);
        }
        i = i + 1;
    }
    assert(ranges@.take(i as int) =~= ranges@);
    out
}

fn empty_string_list() -> (out: Vec<Vec<u8>>)
    ensures
        strings_of(out@) == seq![Seq::<u8>::empty()],
{
    let mut out: Vec<Vec<u8>> = Vec::new();
    out.push(Vec::new());
    assert(strings_of(out@) =~= seq![Seq::<u8>::empty()]);
    out
}

fn repetition_strings(sub: &Vec<Vec<u8>>, min: u32, bound: usize, max_len: Option<usize>, order: GenerationOrder) -> (out: Vec<Vec<u8>>)
    ensures
        strings_of(out@) == rep_strings(strings_of(sub@), min as nat, bound as nat, 0, max_len, order),
{
    let ghost sv = strings_of(sub@);
    let mut d: usize = bound;
    let mut current: Vec<Vec<u8>> = if d >= min as usize { empty_string_list() } else { Vec::new() };
    assert(strings_of(current@) =~= rep_strings(sv, min as nat, bound as nat, d as nat, max_len, order));
    while d > 0
        invariant
            d <= bound,
            sv == strings_of(sub@),
            strings_of(current@) == rep_strings(sv, min as nat, bound as nat, d as nat, max_len, order),
        decreases d,
    {
        d = d - 1;
        let tail = combine_lists(sub, &current, max_len, order);
        let mut next: Vec<Vec<u8>> = if d >= min as usize { empty_string_list() } else { Vec::new() };
        let ghost head = strings_of(next@);
        let mut k: usize = 0;
        assert(strings_of(next@) =~= head + strings_of(tail@).take(0));
        while k < tail.len()
            invariant
                k <= tail.len(),
                strings_of(next@) == head + strings_of(tail@).take(k as int),
            decreases tail.len() - k,
        {
            let piece = concat_bytes(&tail[k], &Vec::new());
            assert(piece@ =~= tail@[k as int]@);
            proof { lemma_strings_push(next@, piece); }
            next.push(piece);
            k = k + 1;
            assert(strings_of(next@) =~= head + strings_of(tail@).take(k as int));
        }
        assert(strings_of(tail@).take(k as int) =~= strings_of(tail@));
        current = next;
    }
    current
}

/// The strings that `node` describes that fit into `max_len`, in the given
/// order.
pub fn generate_node(node: &Node, max_len: Option<usize>, order: GenerationOrder) -> (res: Result<Vec<Vec<u8>>, Unsupported>)
    ensures
        match res {
            Ok(list) => spec_generate(*node, max_len, order) == Ok::<Strings, Unsupported>(strings_of(list@)),
            Err(e) => spec_generate(*node, max_len, order) == Err::<Strings, Unsupported>(e),
        },
    decreases node,
{
    match node {
        Node::Empty => Ok(empty_string_list()),
        Node::Look(_) => Ok(empty_string_list()),
        Node::Literal(bytes) => {
            let keep = match max_len {
                Some(max) => bytes.len() <= max,
                None => true,
            };
            let mut out: Vec<Vec<u8>> = Vec::new();
            if keep {
                let copy = concat_bytes(bytes, &Vec::new());
                assert(copy@ =~= bytes@);
                out.push(copy);
            }
            assert(strings_of(out@) =~= if fits(bytes@.len(), max_len) { seq![bytes@] } else { seq![] });
            Ok(out)
        },
        Node::UnicodeClass(ranges) => Ok(unicode_class_strings(ranges, max_len)),
        Node::ByteClass(ranges) => {
            let mut ok = true;
            let mut i: usize = 0;
            while i < ranges.len()
                invariant
                    i <= ranges.len(),
                    ok == byte_class_ok(ranges@.take(i as int)),
                decreases ranges.len() - i,
            {
                let bad = ranges[i].0 <= ranges[i].1 && ranges[i].1 >= 0x80;
                proof {
                    let t = ranges@.take(i + 1);
                    assert(t.drop_last() =~= ranges@.take(i as int));
                    if byte_class_ok(t) {
                        assert(byte_class_ok(ranges@.take(i as int))) by {
                            assert forall|k: int| 0 <= k < i && #[trigger] ranges@.take(i as int)[k].0 <= ranges@.take(i as int)[k].1
                                implies ranges@.take(i as int)[k].1 < 0x80 by {
                                assert(ranges@.take(i as int)[k] == t[k]);
                            }
                        }
                        assert(t[i as int] == ranges@[i as int]);
                    }
                    if ok && !bad {
                        assert forall|k: int| 0 <= k < i + 1 && #[trigger] t[k].0 <= t[k].1 implies t[k].1 < 0x80 by {
                            if k < i {
                                assert(t[k] == ranges@.take(i as int)[k]);
                            }
                        }
                    }
                }
                ok = ok && !bad;
                i = i + 1;
            }
            assert(ranges@.take(i as int) =~= ranges@);
            if ok {
                Ok(byte_class_strings(ranges, max_len))
            } else {
                Err(Unsupported::NonUtf8ByteClass)
            }
        },
        Node::Capture(sub) => generate_node(sub, max_len, order),
        Node::Concat(parts) => generate_concat(parts, max_len, order),
        Node::Alternation(parts) => generate_alternation(parts, max_len, order),
        Node::Repetition { min, max, sub } => {
            let s = generate_node(sub, max_len, order)?;
            proof { lemma_generated_node_ok(**sub, max_len, order); }
            let bound: usize = match max {
                Some(n) => *n as usize,
                None => match max_len {
                    None => return Err(Unsupported::UnboundedGeneration),
                    Some(limit) => match min_positive_len(sub, limit) {
                        Ok(m) => {
                            proof { lemma_min_positive(spec_dist(**sub, Some(limit)).0); }
                            limit / m
                        },
                        Err(_) => *min as usize,
                    },
                },
            };
            Ok(repetition_strings(&s, *min, bound, max_len, order))
        },
    }
}

fn generate_concat(parts: &Vec<Node>, max_len: Option<usize>, order: GenerationOrder) -> (res: Result<Vec<Vec<u8>>, Unsupported>)
    ensures
        match res {
            Ok(list) => spec_generate_concat(parts@, parts@.len(), max_len, order) == Ok::<Strings, Unsupported>(strings_of(list@)),
            Err(e) => spec_generate_concat(parts@, parts@.len(), max_len, order) == Err::<Strings, Unsupported>(e),
        },
    decreases parts, parts@.len(),
{
    let mut acc = empty_string_list();
    let mut i: usize = 0;
    while i < parts.len()
        invariant
            i <= parts.len(),
            spec_generate_concat(parts@, i as nat, max_len, order) == Ok::<Strings, Unsupported>(strings_of(acc@)),
        decreases parts.len() - i,
    {
        match generate_node(&parts[i], max_len, order) {
            Ok(ys) => {
                acc = combine_lists(&acc, &ys, max_len, order);
            },
            Err(e) => {
                proof { lemma_concat_err(parts@, max_len, order, (i + 1) as nat, parts@.len()); }
                return Err(e);
            },
        }
        i = i + 1;
    }
    Ok(acc)
}

proof fn lemma_concat_err(parts: Seq<Node>, max_len: Option<usize>, order: GenerationOrder, k: nat, n: nat)
    requires
        0 < k <= n <= parts.len(),
        spec_generate_concat(parts, k, max_len, order) is Err,
    ensures
        spec_generate_concat(parts, n, max_len, order) == spec_generate_concat(parts, k, max_len, order),
    decreases n,
{
    if k < n {
        lemma_concat_err(parts, max_len, order, k, (n - 1) as nat);
    }
}

fn generate_alternation(parts: &Vec<Node>, max_len: Option<usize>, order: GenerationOrder) -> (res: Result<Vec<Vec<u8>>, Unsupported>)
    ensures
        match res {
            Ok(list) => spec_generate_alternation(parts@, parts@.len(), max_len, order) == Ok::<Strings, Unsupported>(strings_of(list@)),
            Err(e) => spec_generate_alternation(parts@, parts@.len(), max_len, order) == Err::<Strings, Unsupported>(e),
        },
    decreases parts, parts@.len(),
{
    let mut acc: Vec<Vec<u8>> = Vec::new();
    let mut i: usize = 0;
    assert(strings_of(acc@) =~= Seq::<Seq<u8>>::empty());
    while i < parts.len()
        invariant
            i <= parts.len(),
            spec_generate_alternation(parts@, i as nat, max_len, order) == Ok::<Strings, Unsupported>(strings_of(acc@)),
        decreases parts.len() - i,
    {
        match generate_node(&parts[i], max_len, order) {
            Ok(ys) => {
                let ghost before = strings_of(acc@);
                let mut k: usize = 0;
                assert(strings_of(acc@) =~= before + strings_of(ys@).take(0));
                while k < ys.len()
                    invariant
                        k <= ys.len(),
                        strings_of(acc@) == before + strings_of(ys@).take(k as int),
                    decreases ys.len() - k,
                {
                    let piece = concat_bytes(&ys[k], &Vec::new());
                    assert(piece@ =~= ys@[k as int]@);
                    proof { lemma_strings_push(acc@, piece); }
                    acc.push(piece);
                    k = k + 1;
                    assert(strings_of(acc@) =~= before + strings_of(ys@).take(k as int));
                }
                assert(strings_of(ys@).take(k as int) =~= strings_of(ys@));
            },
            Err(e) => {
                proof { lemma_alternation_err(parts@, max_len, order, (i + 1) as nat, parts@.len()); }
                return Err(e);
            },
        }
        i = i + 1;
    }
    Ok(acc)
}

proof fn lemma_alternation_err(parts: Seq<Node>, max_len: Option<usize>, order: GenerationOrder, k: nat, n: nat)
    requires
        0 < k <= n <= parts.len(),
        spec_generate_alternation(parts, k, max_len, order) is Err,
    ensures
        spec_generate_alternation(parts, n, max_len, order) == spec_generate_alternation(parts, k, max_len, order),
    decreases n,
{
    if k < n {
        lemma_alternation_err(parts, max_len, order, k, (n - 1) as nat);
    }
}


/// The strings of a list that are at least `min` bytes long, in order.
pub open spec fn at_least(list: Strings, min: usize) -> Strings
    decreases list.len(),
{
    if list.len() == 0 {
        seq![]
    } else {
        let rest = at_least(list.drop_last(), min);
        if list.last().len() >= min { rest.push(list.last()) } else { rest }
    }
}

/// Every string of the list is valid UTF-8.
pub open spec fn all_utf8(list: Strings) -> bool {
    forall|i: int| 0 <= i < list.len() ==> vstd::utf8::valid_utf8(#[trigger] list[i])
}

/// The characters of each string.
pub open spec fn chars_of(v: Seq<String>) -> Seq<Seq<char>> {
    v.map_values(|s: String| s@)
}

/// The characters that each byte string encodes.
pub open spec fn decode_all(list: Strings) -> Seq<Seq<char>> {
    list.map_values(|b: Seq<u8>| vstd::utf8::decode_utf8(b))
}

/// The Match Strings of a tree within `constraints`, in the given order, as
/// characters; or why they cannot be generated.
pub open spec fn spec_candidates(tree: Node, constraints: LengthConstraints, order: GenerationOrder) -> Result<Seq<Seq<char>>, Error> {
    if !anchors_ok(tree, true, true) {
        Err(Error::Unsupported(Unsupported::LookAround))
    } else {
        match spec_generate(tree, constraints.max, order) {
            Err(e) => Err(Error::Unsupported(e)),
            Ok(list) => {
                let kept = at_least(list, constraints.min);
                if all_utf8(kept) {
                    Ok(decode_all(kept))
                } else {
                    Err(Error::InvalidUtf8)
                }
            },
        }
    }
}

/// `String::from_utf8(bytes).ok()`: the string that the bytes encode, where
/// they are valid UTF-8.
#[verifier::external_body]
fn utf8_string(bytes: Vec<u8>) -> (s: Option<String>)
    ensures
        s is Some <==> vstd::utf8::valid_utf8(bytes@),
        s matches Some(t) ==> t@ == vstd::utf8::decode_utf8(bytes@),
{
    String::from_utf8(bytes).ok()
}

/// Generates the Match Strings of a syntax tree.
#[derive(Debug, Default)]
pub struct Generate {}

impl Generate {
    pub fn new() -> (g: Generate)
        ensures
            g == (Generate {}),
    {
        Generate {}
    }

    /// The Match Strings of `tree` within `constraints`, in the given order.
    pub fn generate(&self, tree: &Node, constraints: &LengthConstraints, order: GenerationOrder) -> (res: Result<Vec<String>, Error>)
        ensures
            match res {
                Ok(list) => spec_candidates(*tree, *constraints, order) == Ok::<Seq<Seq<char>>, Error>(chars_of(list@)),
                Err(e) => spec_candidates(*tree, *constraints, order) == Err::<Seq<Seq<char>>, Error>(e),
            },
    {
        if !anchors_in_place(tree, true, true) {
            return Err(Error::Unsupported(Unsupported::LookAround));
        }
        let list = match generate_node(tree, constraints.max, order) {
            Ok(list) => list,
            Err(e) => return Err(Error::Unsupported(e)),
        };
        let ghost all = strings_of(list@);
        let mut out: Vec<String> = Vec::new();
        let ghost mut kept: Strings = seq![];
        let mut i: usize = 0;
        while i < list.len()
            invariant
                i <= list.len(),
                all == strings_of(list@),
                anchors_ok(*tree, true, true),
                spec_generate(*tree, constraints.max, order) == Ok::<Strings, Unsupported>(all),
                kept == at_least(all.take(i as int), constraints.min),
                all_utf8(kept),
                chars_of(out@) == decode_all(kept),
            decreases list.len() - i,
        {
            assert(all.take(i + 1).drop_last() =~= all.take(i as int));
            assert(all.take(i + 1).last() == list@[i as int]@);
            if list[i].len() >= constraints.min {
                let bytes = concat_bytes(&list[i], &Vec::new());
                assert(bytes@ =~= list@[i as int]@);
                let ghost bv = bytes@;
                assert(all[i as int] == bv);
                match utf8_string(bytes) {
                    Some(s) => {
                        let ghost old_out = out@;
                        let ghost sv = s@;
                        out.push(s);
                        proof {
                            let old_kept = kept;
                            kept = kept.push(list@[i as int]@);
                            assert(chars_of(out@) =~= chars_of(old_out).push(sv));
                            assert(decode_all(kept) =~= decode_all(old_kept).push(sv));
                            assert forall|j: int| 0 <= j < kept.len() implies vstd::utf8::valid_utf8(#[trigger] kept[j]) by {
                                if j < old_kept.len() {
                                    assert(kept[j] == old_kept[j]);
                                }
                            }
                        }
                    },
                    None => {
                        proof {
                            assert(!vstd::utf8::valid_utf8(all[i as int]));
                            lemma_not_all_utf8(all, constraints.min, (i + 1) as nat);
                        }
                        return Err(Error::InvalidUtf8);
                    },
                }
            }
            i = i + 1;
        }
        assert(all.take(i as int) =~= all);
        assert(chars_of(out@) == decode_all(at_least(all, constraints.min)));
        Ok(out)
    }
}

/// Every string of the list fits into `max_len`.
pub open spec fn all_fit(list: Strings, max_len: Option<usize>) -> bool {
    forall|i: int| 0 <= i < list.len() ==> fits(#[trigger] list[i].len(), max_len)
}

proof fn lemma_all_fit_concat(a: Strings, b: Strings, max_len: Option<usize>)
    requires
        all_fit(a, max_len),
        all_fit(b, max_len),
    ensures
        all_fit(a + b, max_len),
{
    assert forall|i: int| 0 <= i < (a + b).len() implies fits(#[trigger] (a + b)[i].len(), max_len) by {
        if i < a.len() {
            assert((a + b)[i] == a[i]);
        } else {
            assert((a + b)[i] == b[i - a.len()]);
        }
    }
}

proof fn lemma_all_fit_push(a: Strings, x: Seq<u8>, max_len: Option<usize>)
    requires
        all_fit(a, max_len),
        fits(x.len(), max_len),
    ensures
        all_fit(a.push(x), max_len),
{
    assert forall|i: int| 0 <= i < a.push(x).len() implies fits(#[trigger] a.push(x)[i].len(), max_len) by {
        if i < a.len() {
            assert(a.push(x)[i] == a[i]);
        }
    }
}

proof fn lemma_join_fit(xs: Strings, ys: Strings, max_len: Option<usize>)
    ensures
        all_fit(join(xs, ys, max_len), max_len),
        all_fit(join_inv(xs, ys, max_len), max_len),
    decreases xs.len() + ys.len(),
{
    if xs.len() > 0 {
        lemma_join_fit(xs.drop_last(), ys, max_len);
        lemma_join_one_fit(xs.last(), ys, max_len);
        lemma_all_fit_concat(join(xs.drop_last(), ys, max_len), join_one(xs.last(), ys, max_len), max_len);
    }
    if ys.len() > 0 {
        lemma_join_fit(xs, ys.drop_last(), max_len);
        lemma_join_one_inv_fit(xs, ys.last(), max_len);
        lemma_all_fit_concat(join_inv(xs, ys.drop_last(), max_len), join_one_inv(xs, ys.last(), max_len), max_len);
    }
}

proof fn lemma_join_one_fit(x: Seq<u8>, ys: Strings, max_len: Option<usize>)
    ensures
        all_fit(join_one(x, ys, max_len), max_len),
    decreases ys.len(),
{
    if ys.len() > 0 {
        lemma_join_one_fit(x, ys.drop_last(), max_len);
        if fits(x.len() + ys.last().len(), max_len) {
            lemma_all_fit_push(join_one(x, ys.drop_last(), max_len), x + ys.last(), max_len);
        }
    }
}

proof fn lemma_join_one_inv_fit(xs: Strings, y: Seq<u8>, max_len: Option<usize>)
    ensures
        all_fit(join_one_inv(xs, y, max_len), max_len),
    decreases xs.len(),
{
    if xs.len() > 0 {
        lemma_join_one_inv_fit(xs.drop_last(), y, max_len);
        if fits(xs.last().len() + y.len(), max_len) {
            lemma_all_fit_push(join_one_inv(xs.drop_last(), y, max_len), xs.last() + y, max_len);
        }
    }
}

proof fn lemma_range_fit(lo: u32, hi: int, max_len: Option<usize>)
    ensures
        all_fit(range_strings(lo, hi, max_len), max_len),
    decreases hi - lo + 1,
{
    if hi >= lo {
        lemma_range_fit(lo, hi - 1, max_len);
        let c = hi as u32;
        if vstd::utf8::is_scalar(c) && fits(vstd::utf8::encode_scalar(c).len(), max_len) {
            lemma_all_fit_push(range_strings(lo, hi - 1, max_len), vstd::utf8::encode_scalar(c), max_len);
        }
    }
}

proof fn lemma_classes_fit(ranges: Seq<(char, char)>, bytes: Seq<(u8, u8)>, max_len: Option<usize>)
    ensures
        all_fit(unicode_strings(ranges, max_len), max_len),
        all_fit(byte_strings(bytes, max_len), max_len),
    decreases ranges.len() + bytes.len(),
{
    if ranges.len() > 0 {
        lemma_classes_fit(ranges.drop_last(), bytes, max_len);
        lemma_range_fit(ranges.last().0 as u32, (ranges.last().1 as u32) as int, max_len);
        lemma_all_fit_concat(
            unicode_strings(ranges.drop_last(), max_len),
            range_strings(ranges.last().0 as u32, (ranges.last().1 as u32) as int, max_len),
            max_len,
        );
    }
    if bytes.len() > 0 {
        lemma_classes_fit(ranges, bytes.drop_last(), max_len);
        let r = bytes.last();
        let tail: Strings = if r.0 <= r.1 && fits(1, max_len) {
            Seq::new((r.1 - r.0 + 1) as nat, |i: int| seq![(r.0 + i) as u8])
        } else {
            seq![]
        };
        assert(all_fit(tail, max_len));
        lemma_all_fit_concat(byte_strings(bytes.drop_last(), max_len), tail, max_len);
    }
}

proof fn lemma_rep_fit(sub: Strings, min: nat, bound: nat, d: nat, max_len: Option<usize>, order: GenerationOrder)
    ensures
        all_fit(rep_strings(sub, min, bound, d, max_len, order), max_len),
    decreases bound - d,
{
    let head: Strings = if d >= min { seq![seq![]] } else { seq![] };
    assert(all_fit(head, max_len));
    if d < bound {
        lemma_rep_fit(sub, min, bound, d + 1, max_len, order);
        lemma_join_fit(sub, rep_strings(sub, min, bound, d + 1, max_len, order), max_len);
        lemma_all_fit_concat(head, combine(sub, rep_strings(sub, min, bound, d + 1, max_len, order), max_len, order), max_len);
    }
}

/// Every string that generation yields fits into the length bound.
pub proof fn law_generated_strings_fit(node: Node, max_len: Option<usize>, order: GenerationOrder)
    ensures
        spec_generate(node, max_len, order) matches Ok(list) ==> all_fit(list, max_len),
    decreases node, 0nat,
{
    match node {
        Node::Empty => {},
        Node::Look(_) => {},
        Node::Literal(bytes) => {},
        Node::UnicodeClass(ranges) => lemma_classes_fit(ranges@, seq![], max_len),
        Node::ByteClass(ranges) => lemma_classes_fit(seq![], ranges@, max_len),
        Node::Capture(sub) => law_generated_strings_fit(*sub, max_len, order),
        Node::Concat(parts) => lemma_parts_fit(parts@, parts@.len(), max_len, order),
        Node::Alternation(parts) => lemma_parts_fit(parts@, parts@.len(), max_len, order),
        Node::Repetition { min, max, sub } => {
            law_generated_strings_fit(*sub, max_len, order);
            if let Ok(s) = spec_generate(*sub, max_len, order) {
                if let Ok(bound) = rep_bound(*sub, min, max, max_len) {
                    lemma_rep_fit(s, min as nat, bound, 0, max_len, order);
                }
            }
        },
    }
}

proof fn lemma_parts_fit(parts: Seq<Node>, n: nat, max_len: Option<usize>, order: GenerationOrder)
    ensures
        spec_generate_concat(parts, n, max_len, order) matches Ok(list) ==> all_fit(list, max_len),
        spec_generate_alternation(parts, n, max_len, order) matches Ok(list) ==> all_fit(list, max_len),
    decreases parts, n,
{
    if n > 0 && n <= parts.len() {
        lemma_parts_fit(parts, (n - 1) as nat, max_len, order);
        law_generated_strings_fit(parts[n - 1], max_len, order);
        if let Ok(xs) = spec_generate_concat(parts, (n - 1) as nat, max_len, order) {
            if let Ok(ys) = spec_generate(parts[n - 1], max_len, order) {
                lemma_join_fit(xs, ys, max_len);
            }
        }
        if let Ok(xs) = spec_generate_alternation(parts, (n - 1) as nat, max_len, order) {
            if let Ok(ys) = spec_generate(parts[n - 1], max_len, order) {
                lemma_all_fit_concat(xs, ys, max_len);
            }
        }
    } else {
        assert(all_fit(seq![seq![]], max_len));
    }
}

proof fn lemma_at_least_members(list: Strings, min: usize, max_len: Option<usize>)
    requires
        all_fit(list, max_len),
    ensures
        all_fit(at_least(list, min), max_len),
        forall|i: int| 0 <= i < at_least(list, min).len() ==> #[trigger] at_least(list, min)[i].len() >= min,
    decreases list.len(),
{
    if list.len() > 0 {
        assert(all_fit(list.drop_last(), max_len)) by {
            assert forall|i: int| 0 <= i < list.drop_last().len() implies fits(#[trigger] list.drop_last()[i].len(), max_len) by {
                assert(list.drop_last()[i] == list[i]);
            }
        }
        lemma_at_least_members(list.drop_last(), min, max_len);
        let rest = at_least(list.drop_last(), min);
        if list.last().len() >= min {
            assert(fits(list[list.len() - 1].len(), max_len));
            lemma_all_fit_push(rest, list.last(), max_len);
            assert forall|i: int| 0 <= i < rest.push(list.last()).len() implies #[trigger] rest.push(list.last())[i].len() >= min by {
                if i < rest.len() {
                    assert(rest.push(list.last())[i] == rest[i]);
                }
            }
        }
    }
}

/// Length Constraints: every Match String that generation yields has a Byte
/// Length within the constraints.
pub proof fn law_candidates_within_constraints(tree: Node, constraints: LengthConstraints, order: GenerationOrder)
    ensures
        spec_candidates(tree, constraints, order) matches Ok(cands) ==> forall|i: int| 0 <= i < cands.len() ==> {
            let len = vstd::utf8::encode_utf8(#[trigger] cands[i]).len();
            &&& constraints.min <= len
            &&& fits(len, constraints.max)
        },
{
    law_generated_strings_fit(tree, constraints.max, order);
    if let Ok(list) = spec_generate(tree, constraints.max, order) {
        lemma_at_least_members(list, constraints.min, constraints.max);
        let kept = at_least(list, constraints.min);
        if all_utf8(kept) {
            assert forall|i: int| 0 <= i < decode_all(kept).len() implies {
                let len = vstd::utf8::encode_utf8(#[trigger] decode_all(kept)[i]).len();
                &&& constraints.min <= len
                &&& fits(len, constraints.max)
            } by {
                assert(vstd::utf8::valid_utf8(kept[i]));
                vstd::utf8::decode_utf8_encode_utf8(kept[i]);
                assert(decode_all(kept)[i] == vstd::utf8::decode_utf8(kept[i]));
                assert(fits(kept[i].len(), constraints.max));
                assert(kept[i].len() >= constraints.min);
            }
        }
    }
}

/// Generation succeeds only on trees whose byte classes are ASCII.
proof fn lemma_generated_node_ok(node: Node, max_len: Option<usize>, order: GenerationOrder)
    ensures
        spec_generate(node, max_len, order) is Ok ==> node_ok(node),
    decreases node, 0nat,
{
    match node {
        Node::Capture(sub) => lemma_generated_node_ok(*sub, max_len, order),
        Node::Repetition { sub, .. } => lemma_generated_node_ok(*sub, max_len, order),
        Node::Concat(parts) => lemma_generated_parts_ok(parts@, parts@.len(), max_len, order),
        Node::Alternation(parts) => lemma_generated_parts_ok(parts@, parts@.len(), max_len, order),
        _ => {},
    }
}

proof fn lemma_generated_parts_ok(parts: Seq<Node>, n: nat, max_len: Option<usize>, order: GenerationOrder)
    ensures
        spec_generate_concat(parts, n, max_len, order) is Ok ==> nodes_ok(parts, n),
        spec_generate_alternation(parts, n, max_len, order) is Ok ==> nodes_ok(parts, n),
    decreases parts, n,
{
    if n > 0 && n <= parts.len() {
        lemma_generated_parts_ok(parts, (n - 1) as nat, max_len, order);
        lemma_generated_node_ok(parts[n - 1], max_len, order);
    }
}

proof fn lemma_at_least_prefix(list: Strings, min: usize, k: nat, n: nat)
    requires
        k <= n <= list.len(),
    ensures
        at_least(list.take(k as int), min).len() <= at_least(list.take(n as int), min).len(),
        forall|j: int| 0 <= j < at_least(list.take(k as int), min).len()
            ==> at_least(list.take(n as int), min)[j] == at_least(list.take(k as int), min)[j],
    decreases n,
{
    if k < n {
        lemma_at_least_prefix(list, min, k, (n - 1) as nat);
        assert(list.take(n as int).drop_last() =~= list.take(n - 1));
    }
}

proof fn lemma_not_all_utf8(list: Strings, min: usize, k: nat)
    requires
        0 < k <= list.len(),
        list[k - 1].len() >= min,
        !vstd::utf8::valid_utf8(list[k - 1]),
    ensures
        !all_utf8(at_least(list, min)),
{
    let pre = at_least(list.take(k as int), min);
    assert(list.take(k as int).drop_last() =~= list.take(k - 1));
    assert(list.take(k as int).last() == list[k - 1]);
    assert(pre.last() == list[k - 1]);
    lemma_at_least_prefix(list, min, k, list.len());
    assert(list.take(list.len() as int) =~= list);
    let full = at_least(list, min);
    assert(full[pre.len() - 1] == pre[pre.len() - 1]);
}

} // verus!
