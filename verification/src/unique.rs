//! Whether a syntax tree derives each string it matches in one way only, by
//! a check that may refuse trees that are in fact unambiguous but never
//! accepts one that is not.
use crate::calculate::{scalar_width, scalar_width_of};
use crate::syntax::Node;
use vstd::prelude::*;

verus! {

/// What the check knows of a tree: the one Byte Length of all its strings
/// (where there is one and it fits in `usize`), whether it may match the
/// empty string, which bytes its non-empty strings may start with (one flag
/// per byte value), and whether it derives each string in one way only.
pub type SpecShape = (Option<usize>, bool, Seq<bool>, bool);

/// No first byte.
pub open spec fn no_firsts() -> Seq<bool> {
    Seq::new(256, |i: int| false)
}

/// `f` with the bytes `lo..=hi` added.
pub open spec fn with_range(f: Seq<bool>, lo: int, hi: int) -> Seq<bool> {
    Seq::new(256, |i: int| f[i] || (lo <= i && i <= hi))
}

/// The first bytes of either.
pub open spec fn union_firsts(a: Seq<bool>, b: Seq<bool>) -> Seq<bool> {
    Seq::new(256, |i: int| a[i] || b[i])
}

/// No byte is a first byte of both.
pub open spec fn disjoint_firsts(a: Seq<bool>, b: Seq<bool>) -> bool {
    forall|i: int| 0 <= i < 256 ==> !(a[i] && b[i])
}

/// The first byte of the UTF-8 encoding of the character with scalar value
/// `c`.
pub open spec fn lead_byte(c: u32) -> int {
    if c < 0x80 {
        c as int
    } else if c < 0x800 {
        0xC0 + c / 64
    } else if c < 0x10000 {
        0xE0 + c / 4096
    } else {
        0xF0 + c / 262144
    }
}

/// The first bytes of the characters of a Unicode class: for each range, the
/// bytes from the first byte of its start to that of its end.
pub open spec fn unicode_firsts(ranges: Seq<(char, char)>) -> Seq<bool>
    decreases ranges.len(),
{
    if ranges.len() == 0 {
        no_firsts()
    } else {
        with_range(unicode_firsts(ranges.drop_last()), lead_byte(ranges.last().0 as u32), lead_byte(ranges.last().1 as u32))
    }
}

/// The bytes of a byte class.
pub open spec fn byte_firsts(ranges: Seq<(u8, u8)>) -> Seq<bool>
    decreases ranges.len(),
{
    if ranges.len() == 0 {
        no_firsts()
    } else {
        with_range(byte_firsts(ranges.drop_last()), ranges.last().0 as int, ranges.last().1 as int)
    }
}

/// The ranges are non-empty and strictly increasing, so no character is in
/// two of them.
pub open spec fn chars_disjoint(r: Seq<(char, char)>) -> bool {
    &&& forall|i: int| 0 <= i < r.len() ==> (r[i].0 as u32) <= (r[i].1 as u32)
    &&& forall|i: int| 0 < i < r.len() ==> (r[i - 1].1 as u32) < (r[i].0 as u32)
}

/// The ranges are non-empty and strictly increasing, so no byte is in two of
/// them.
pub open spec fn bytes_disjoint(r: Seq<(u8, u8)>) -> bool {
    &&& forall|i: int| 0 <= i < r.len() ==> r[i].0 <= r[i].1
    &&& forall|i: int| 0 < i < r.len() ==> r[i - 1].1 < r[i].0
}

/// The one UTF-8 width of all characters of a Unicode class, where every
/// range starts and ends with characters of the width of the first.
pub open spec fn class_fixed(r: Seq<(char, char)>) -> Option<usize> {
    if r.len() > 0 && forall|i: int| 0 <= i < r.len() ==>
        scalar_width(r[i].0 as u32) == scalar_width(r[0].0 as u32)
        && scalar_width(r[i].1 as u32) == scalar_width(r[0].0 as u32) {
        scalar_width(r[0].0 as u32)
    } else {
        None
    }
}

/// `a + b`, where it fits in `usize`.
pub open spec fn fixed_add(a: Option<usize>, b: Option<usize>) -> Option<usize> {
    match (a, b) {
        (Some(x), Some(y)) => if x + y <= usize::MAX { Some((x + y) as usize) } else { None },
        _ => None,
    }
}

/// The shape of `acc` followed by `p`. Each string splits in one way only
/// where both parts do and one of them has a fixed length.
pub open spec fn concat_step(acc: SpecShape, p: SpecShape) -> SpecShape {
    (
        fixed_add(acc.0, p.0),
        acc.1 && p.1,
        if acc.1 { union_firsts(acc.2, p.2) } else { acc.2 },
        acc.3 && p.3 && (acc.0 is Some || p.0 is Some),
    )
}

/// The shape of `acc` or `p`. Both derive each string once and never the
/// same one where their first bytes differ and at most one matches the
/// empty string.
pub open spec fn alt_step(acc: SpecShape, p: SpecShape) -> SpecShape {
    (
        if acc.0 == p.0 { acc.0 } else { None },
        acc.1 || p.1,
        union_firsts(acc.2, p.2),
        acc.3 && p.3 && disjoint_firsts(acc.2, p.2) && !(acc.1 && p.1),
    )
}

/// The shape of `s` repeated from `min` to `max` times. Repetitions of a
/// fixed positive length have as many pieces as their length says, so each
/// string splits in one way; otherwise only one number of pieces may occur,
/// and with a length that varies, at most one piece.
pub open spec fn repeat_shape(s: SpecShape, min: u32, max: Option<u32>) -> SpecShape {
    let zero = max == Some(0u32);
    let exact = max == Some(min);
    (
        if zero {
            Some(0usize)
        } else if exact {
            match s.0 {
                Some(w) => if min * w <= usize::MAX { Some((min * w) as usize) } else { None },
                None => None,
            }
        } else {
            None
        },
        zero || min == 0 || s.1,
        if zero { no_firsts() } else { s.2 },
        zero || (s.3 && match s.0 {
            Some(w) => w > 0 || exact,
            None => exact && min <= 1,
        }),
    )
}

/// The shape of a tree.
pub open spec fn spec_shape(node: Node) -> SpecShape
    decreases node, 0nat,
{
    match node {
        Node::Empty => (Some(0usize), true, no_firsts(), true),
        Node::Look(_) => (Some(0usize), true, no_firsts(), true),
        Node::Literal(b) => (
            Some(b@.len() as usize),
            b@.len() == 0,
            if b@.len() == 0 { no_firsts() } else { with_range(no_firsts(), b@[0] as int, b@[0] as int) },
            true,
        ),
        Node::UnicodeClass(r) => (class_fixed(r@), false, unicode_firsts(r@), chars_disjoint(r@)),
        Node::ByteClass(r) => (Some(1usize), false, byte_firsts(r@), bytes_disjoint(r@)),
        Node::Repetition { min, max, sub } => repeat_shape(spec_shape(*sub), min, max),
        Node::Capture(sub) => spec_shape(*sub),
        Node::Concat(parts) => concat_shape(parts@, parts@.len()),
        Node::Alternation(parts) => alt_shape(parts@, parts@.len()),
    }
}

/// The shape of the concatenation of the first `n` parts.
pub open spec fn concat_shape(parts: Seq<Node>, n: nat) -> SpecShape
    decreases parts, n,
{
    if n == 0 || n > parts.len() {
        (Some(0usize), true, no_firsts(), true)
    } else {
        concat_step(concat_shape(parts, (n - 1) as nat), spec_shape(parts[n - 1]))
    }
}

/// The shape of the alternation of the first `n` parts.
pub open spec fn alt_shape(parts: Seq<Node>, n: nat) -> SpecShape
    decreases parts, n,
{
    if n == 0 || n > parts.len() {
        (None, false, no_firsts(), true)
    } else if n == 1 {
        spec_shape(parts[0])
    } else {
        alt_step(alt_shape(parts, (n - 1) as nat), spec_shape(parts[n - 1]))
    }
}

/// The tree passes the check: it derives each string in one way only.
pub open spec fn spec_unique(node: Node) -> bool {
    spec_shape(node).3
}

struct Shape {
    fixed: Option<usize>,
    nullable: bool,
    firsts: Vec<bool>,
    unique: bool,
}

spec fn shape_view(s: Shape) -> SpecShape {
    (s.fixed, s.nullable, s.firsts@, s.unique)
}

fn no_firsts_vec() -> (f: Vec<bool>)
    ensures
        f@ == no_firsts(),
{
    let mut f: Vec<bool> = Vec::new();
    let mut i: usize = 0;
    while i < 256
        invariant
            i <= 256,
            f@ =~= Seq::new(i as nat, |j: int| false),
        decreases 256 - i,
    {
        f.push(false);
        i = i + 1;
    }
    assert(f@ =~= no_firsts());
    f
}

fn add_range(f: &mut Vec<bool>, lo: u32, hi: u32)
    requires
        old(f)@.len() == 256,
    ensures
        final(f)@ == with_range(old(f)@, lo as int, hi as int),
{
    let ghost f0 = f@;
    let mut i: usize = 0;
    while i < 256
        invariant
            i <= 256,
            f@.len() == 256,
            f0.len() == 256,
            forall|j: int| 0 <= j < i ==> f@[j] == with_range(f0, lo as int, hi as int)[j],
            forall|j: int| i <= j < 256 ==> f@[j] == f0[j],
        decreases 256 - i,
    {
        if (lo as usize) <= i && i <= (hi as usize) {
            f.set(i, true);
        }
        i = i + 1;
    }
    assert(f@ =~= with_range(f0, lo as int, hi as int));
}

fn union_vec(a: &Vec<bool>, b: &Vec<bool>) -> (u: Vec<bool>)
    requires
        a@.len() == 256,
        b@.len() == 256,
    ensures
        u@ == union_firsts(a@, b@),
{
    let mut u: Vec<bool> = Vec::new();
    let mut i: usize = 0;
    while i < 256
        invariant
            i <= 256,
            a@.len() == 256,
            b@.len() == 256,
            u@ =~= Seq::new(i as nat, |j: int| a@[j] || b@[j]),
        decreases 256 - i,
    {
        u.push(a[i] || b[i]);
        i = i + 1;
    }
    assert(u@ =~= union_firsts(a@, b@));
    u
}

fn disjoint_vec(a: &Vec<bool>, b: &Vec<bool>) -> (r: bool)
    requires
        a@.len() == 256,
        b@.len() == 256,
    ensures
        r == disjoint_firsts(a@, b@),
{
    let mut i: usize = 0;
    while i < 256
        invariant
            i <= 256,
            a@.len() == 256,
            b@.len() == 256,
            forall|j: int| 0 <= j < i ==> !(a@[j] && b@[j]),
        decreases 256 - i,
    {
        if a[i] && b[i] {
            return false;
        }
        i = i + 1;
    }
    true
}

fn lead_byte_of(c: u32) -> (b: u32)
    ensures
        b == lead_byte(c),
{
    if c < 0x80 {
        c
    } else if c < 0x800 {
        0xC0 + c / 64
    } else if c < 0x10000 {
        0xE0 + c / 4096
    } else {
        0xF0 + c / 262144
    }
}

fn unicode_firsts_vec(r: &Vec<(char, char)>) -> (f: Vec<bool>)
    ensures
        f@ == unicode_firsts(r@),
{
    let mut f = no_firsts_vec();
    let mut i: usize = 0;
    assert(r@.take(0) =~= Seq::<(char, char)>::empty());
    while i < r.len()
        invariant
            i <= r.len(),
            f@ == unicode_firsts(r@.take(i as int)),
            f@.len() == 256,
        decreases r.len() - i,
    {
        let lo = lead_byte_of(r[i].0 as u32);
        let hi = lead_byte_of(r[i].1 as u32);
        add_range(&mut f, lo, hi);
        assert(r@.take(i + 1).drop_last() =~= r@.take(i as int));
        assert(r@.take(i + 1).last() == r@[i as int]);
        i = i + 1;
    }
    assert(r@.take(i as int) =~= r@);
    f
}

fn byte_firsts_vec(r: &Vec<(u8, u8)>) -> (f: Vec<bool>)
    ensures
        f@ == byte_firsts(r@),
{
    let mut f = no_firsts_vec();
    let mut i: usize = 0;
    assert(r@.take(0) =~= Seq::<(u8, u8)>::empty());
    while i < r.len()
        invariant
            i <= r.len(),
            f@ == byte_firsts(r@.take(i as int)),
            f@.len() == 256,
        decreases r.len() - i,
    {
        add_range(&mut f, r[i].0 as u32, r[i].1 as u32);
        assert(r@.take(i + 1).drop_last() =~= r@.take(i as int));
        assert(r@.take(i + 1).last() == r@[i as int]);
        i = i + 1;
    }
    assert(r@.take(i as int) =~= r@);
    f
}

fn chars_disjoint_of(r: &Vec<(char, char)>) -> (b: bool)
    ensures
        b == chars_disjoint(r@),
{
    let mut i: usize = 0;
    while i < r.len()
        invariant
            i <= r.len(),
            forall|j: int| 0 <= j < i ==> (r@[j].0 as u32) <= (r@[j].1 as u32),
            forall|j: int| 0 < j < i ==> (r@[j - 1].1 as u32) < (r@[j].0 as u32),
        decreases r.len() - i,
    {
        if (r[i].0 as u32) > (r[i].1 as u32) {
            return false;
        }
        if i > 0 && (r[i - 1].1 as u32) >= (r[i].0 as u32) {
            return false;
        }
        i = i + 1;
    }
    true
}

fn bytes_disjoint_of(r: &Vec<(u8, u8)>) -> (b: bool)
    ensures
        b == bytes_disjoint(r@),
{
    let mut i: usize = 0;
    while i < r.len()
        invariant
            i <= r.len(),
            forall|j: int| 0 <= j < i ==> r@[j].0 <= r@[j].1,
            forall|j: int| 0 < j < i ==> r@[j - 1].1 < r@[j].0,
        decreases r.len() - i,
    {
        if r[i].0 > r[i].1 {
            return false;
        }
        if i > 0 && r[i - 1].1 >= r[i].0 {
            return false;
        }
        i = i + 1;
    }
    true
}

fn same_width(a: Option<usize>, b: Option<usize>) -> (r: bool)
    ensures
        r == (a == b),
{
    match (a, b) {
        (Some(x), Some(y)) => x == y,
        (None, None) => true,
        _ => false,
    }
}

fn class_fixed_of(r: &Vec<(char, char)>) -> (w: Option<usize>)
    ensures
        w == class_fixed(r@),
{
    if r.len() == 0 {
        return None;
    }
    let w0 = scalar_width_of(r[0].0 as u32);
    let mut i: usize = 0;
    while i < r.len()
        invariant
            0 < r.len(),
            i <= r.len(),
            w0 == scalar_width(r@[0].0 as u32),
            forall|j: int| 0 <= j < i ==> scalar_width(r@[j].0 as u32) == w0 && scalar_width(r@[j].1 as u32) == w0,
        decreases r.len() - i,
    {
        let a = scalar_width_of(r[i].0 as u32);
        let b = scalar_width_of(r[i].1 as u32);
        if !same_width(a, w0) || !same_width(b, w0) {
            return None;
        }
        i = i + 1;
    }
    w0
}

fn concat_step_of(acc: Shape, p: Shape) -> (s: Shape)
    requires
        acc.firsts@.len() == 256,
        p.firsts@.len() == 256,
    ensures
        shape_view(s) == concat_step(shape_view(acc), shape_view(p)),
        s.firsts@.len() == 256,
{
    let fixed = match (acc.fixed, p.fixed) {
        (Some(x), Some(y)) => x.checked_add(y),
        _ => None,
    };
    let firsts = if acc.nullable { union_vec(&acc.firsts, &p.firsts) } else { acc.firsts };
    let unique = acc.unique && p.unique && (acc.fixed.is_some() || p.fixed.is_some());
    Shape { fixed, nullable: acc.nullable && p.nullable, firsts, unique }
}

fn alt_step_of(acc: Shape, p: Shape) -> (s: Shape)
    requires
        acc.firsts@.len() == 256,
        p.firsts@.len() == 256,
    ensures
        shape_view(s) == alt_step(shape_view(acc), shape_view(p)),
        s.firsts@.len() == 256,
{
    let fixed = if same_width(acc.fixed, p.fixed) { acc.fixed } else { None };
    let disjoint = disjoint_vec(&acc.firsts, &p.firsts);
    let firsts = union_vec(&acc.firsts, &p.firsts);
    let unique = acc.unique && p.unique && disjoint && !(acc.nullable && p.nullable);
    Shape { fixed, nullable: acc.nullable || p.nullable, firsts, unique }
}

fn repeat_shape_of(s: Shape, min: u32, max: Option<u32>) -> (r: Shape)
    requires
        s.firsts@.len() == 256,
    ensures
        shape_view(r) == repeat_shape(shape_view(s), min, max),
        r.firsts@.len() == 256,
{
    let zero = match max {
        Some(n) => n == 0,
        None => false,
    };
    let exact = match max {
        Some(n) => n == min,
        None => false,
    };
    let fixed = if zero {
        Some(0usize)
    } else if exact {
        match s.fixed {
            Some(w) => (min as usize).checked_mul(w),
            None => None,
        }
    } else {
        None
    };
    let unique = zero || (s.unique && match s.fixed {
        Some(w) => w > 0 || exact,
        None => exact && min <= 1,
    });
    let firsts = if zero { no_firsts_vec() } else { s.firsts };
    Shape { fixed, nullable: zero || min == 0 || s.nullable, firsts, unique }
}

fn node_shape(node: &Node) -> (s: Shape)
    ensures
        shape_view(s) == spec_shape(*node),
        s.firsts@.len() == 256,
    decreases node,
{
    match node {
        Node::Empty => Shape { fixed: Some(0), nullable: true, firsts: no_firsts_vec(), unique: true },
        Node::Look(_) => Shape { fixed: Some(0), nullable: true, firsts: no_firsts_vec(), unique: true },
        Node::Literal(b) => {
            let mut firsts = no_firsts_vec();
            if b.len() > 0 {
                add_range(&mut firsts, b[0] as u32, b[0] as u32);
            }
            Shape { fixed: Some(b.len()), nullable: b.len() == 0, firsts, unique: true }
        },
        Node::UnicodeClass(r) => Shape {
            fixed: class_fixed_of(r),
            nullable: false,
            firsts: unicode_firsts_vec(r),
            unique: chars_disjoint_of(r),
        },
        Node::ByteClass(r) => Shape {
            fixed: Some(1),
            nullable: false,
            firsts: byte_firsts_vec(r),
            unique: bytes_disjoint_of(r),
        },
        Node::Repetition { min, max, sub } => repeat_shape_of(node_shape(sub), *min, *max),
        Node::Capture(sub) => node_shape(sub),
        Node::Concat(parts) => concat_shape_of(parts),
        Node::Alternation(parts) => alt_shape_of(parts),
    }
}

fn concat_shape_of(parts: &Vec<Node>) -> (s: Shape)
    ensures
        shape_view(s) == concat_shape(parts@, parts@.len()),
        s.firsts@.len() == 256,
    decreases parts, parts@.len(),
{
    let mut acc = Shape { fixed: Some(0), nullable: true, firsts: no_firsts_vec(), unique: true };
    let mut i: usize = 0;
    while i < parts.len()
        invariant
            i <= parts.len(),
            shape_view(acc) == concat_shape(parts@, i as nat),
            acc.firsts@.len() == 256,
        decreases parts.len() - i,
    {
        let p = node_shape(&parts[i]);
        acc = concat_step_of(acc, p);
        i = i + 1;
    }
    acc
}

fn alt_shape_of(parts: &Vec<Node>) -> (s: Shape)
    ensures
        shape_view(s) == alt_shape(parts@, parts@.len()),
        s.firsts@.len() == 256,
    decreases parts, parts@.len(),
{
    if parts.len() == 0 {
        return Shape { fixed: None, nullable: false, firsts: no_firsts_vec(), unique: true };
    }
    let mut acc = node_shape(&parts[0]);
    let mut i: usize = 1;
    while i < parts.len()
        invariant
            1 <= i <= parts.len(),
            shape_view(acc) == alt_shape(parts@, i as nat),
            acc.firsts@.len() == 256,
        decreases parts.len() - i,
    {
        let p = node_shape(&parts[i]);
        acc = alt_step_of(acc, p);
        i = i + 1;
    }
    acc
}

/// Whether the tree passes the check that it derives each string in one way
/// only.
pub fn is_unique(tree: &Node) -> (b: bool)
    ensures
        b == spec_unique(*tree),
{
    node_shape(tree).unique
}

} // verus!
