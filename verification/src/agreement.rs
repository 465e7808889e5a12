//! Analysis and generation agree: under a maximum length, the number of
//! strings of each length that generation yields is the count that analysis
//! finds for that length.
use crate::calculate::{
    byte_widths, compact, concat_counts, count_at, counts_of_dists, filter_counts, flatten_counts,
    lemma_compact, pair_with, pairs, power, range_widths, repetition_bound, repetitions, sat_add,
    scalar_width, spec_dist, spec_dists, spec_filtered, spec_stats, sum_bytes, sum_counts,
    unicode_widths, unit_counts, width_counts, within, any_infinite, spec_concat, spec_repeat, Counts, SpecDist,
};
use crate::corpus::{GenerationOrder, LengthConstraints};
use crate::generate::{
    all_fit, byte_strings, combine, fits, join, join_inv, join_one, join_one_inv,
    at_least, law_generated_strings_fit, range_strings, rep_bound, rep_strings, spec_generate,
    spec_candidates, decode_all, all_utf8,
    spec_generate_alternation, spec_generate_concat, unicode_strings, Strings,
};
use crate::syntax::Node;
use vstd::prelude::*;

verus! {

/// The number of strings of length `l` in a list.
pub open spec fn count_len(list: Strings, l: nat) -> nat
    decreases list.len(),
{
    if list.len() == 0 {
        0
    } else {
        count_len(list.drop_last(), l) + if list.last().len() == l { 1nat } else { 0nat }
    }
}

/// The counts per length of a list of strings.
pub open spec fn lengths_of(list: Strings) -> spec_fn(nat) -> nat {
    |l: nat| count_len(list, l)
}

/// The counts per length of a distribution.
pub open spec fn counts_fn(s: Counts) -> spec_fn(nat) -> nat {
    |l: nat| if l <= usize::MAX { count_at(s, l as usize) } else { 0 }
}

/// `f(j) * g(l - j)` summed over `j` below `i`.
pub open spec fn conv_sum(f: spec_fn(nat) -> nat, g: spec_fn(nat) -> nat, l: nat, i: nat) -> nat
    decreases i,
{
    if i == 0 {
        0
    } else {
        conv_sum(f, g, l, (i - 1) as nat) + f((i - 1) as nat) * g((l - (i - 1)) as nat)
    }
}

/// The number of ways to split length `l` into a length counted by `f` and
/// one counted by `g`.
pub open spec fn conv(f: spec_fn(nat) -> nat, g: spec_fn(nat) -> nat, l: nat) -> nat {
    conv_sum(f, g, l, l + 1)
}

proof fn lemma_count_len_concat(a: Strings, b: Strings, l: nat)
    ensures
        count_len(a + b, l) == count_len(a, l) + count_len(b, l),
    decreases b.len(),
{
    if b.len() == 0 {
        assert(a + b =~= a);
    } else {
        lemma_count_len_concat(a, b.drop_last(), l);
        assert((a + b).drop_last() =~= a + b.drop_last());
    }
}

proof fn lemma_count_at_concat(a: Counts, b: Counts, x: usize)
    ensures
        count_at(a + b, x) == count_at(a, x) + count_at(b, x),
    decreases b.len(),
{
    if b.len() == 0 {
        assert(a + b =~= a);
    } else {
        lemma_count_at_concat(a, b.drop_last(), x);
        assert((a + b).drop_last() =~= a + b.drop_last());
    }
}

proof fn lemma_conv_ext(f1: spec_fn(nat) -> nat, f2: spec_fn(nat) -> nat, g1: spec_fn(nat) -> nat, g2: spec_fn(nat) -> nat, l: nat, i: nat)
    requires
        i <= l + 1,
        forall|j: nat| j <= l ==> #[trigger] f1(j) == f2(j),
        forall|j: nat| j <= l ==> #[trigger] g1(j) == g2(j),
    ensures
        conv_sum(f1, g1, l, i) == conv_sum(f2, g2, l, i),
    decreases i,
{
    if i > 0 {
        lemma_conv_ext(f1, f2, g1, g2, l, (i - 1) as nat);
    }
}

/// Adding `c` at length `a` to the left side adds `c` times the right side
/// at `l - a`.
proof fn lemma_conv_add_left(f: spec_fn(nat) -> nat, f1: spec_fn(nat) -> nat, g: spec_fn(nat) -> nat, a: nat, c: nat, l: nat, i: nat)
    requires
        i <= l + 1,
        forall|j: nat| j <= l ==> #[trigger] f1(j) == f(j) + if j == a { c } else { 0 },
    ensures
        conv_sum(f1, g, l, i) == conv_sum(f, g, l, i) + if a < i { c * g((l - a) as nat) } else { 0 },
    decreases i,
{
    if i > 0 {
        let j = (i - 1) as nat;
        lemma_conv_add_left(f, f1, g, a, c, l, j);
        let gj = g((l - j) as nat);
        assert(f1(j) * gj == f(j) * gj + (if j == a { c } else { 0 }) * gj) by (nonlinear_arith)
            requires
                f1(j) == f(j) + if j == a { c } else { 0 };
    }
}

/// Adding the sides pointwise on the right adds the sums.
proof fn lemma_conv_add_right(f: spec_fn(nat) -> nat, g1: spec_fn(nat) -> nat, g2: spec_fn(nat) -> nat, g: spec_fn(nat) -> nat, l: nat, i: nat)
    requires
        i <= l + 1,
        forall|j: nat| j <= l ==> #[trigger] g(j) == g1(j) + g2(j),
    ensures
        conv_sum(f, g, l, i) == conv_sum(f, g1, l, i) + conv_sum(f, g2, l, i),
    decreases i,
{
    if i > 0 {
        let j = (i - 1) as nat;
        lemma_conv_add_right(f, g1, g2, g, l, j);
        let k = (l - j) as nat;
        assert(f(j) * g(k) == f(j) * g1(k) + f(j) * g2(k)) by (nonlinear_arith)
            requires
                g(k) == g1(k) + g2(k);
    }
}

/// A zero side gives a zero sum.
proof fn lemma_conv_zero_right(f: spec_fn(nat) -> nat, g: spec_fn(nat) -> nat, l: nat, i: nat)
    requires
        i <= l + 1,
        forall|j: nat| j <= l ==> #[trigger] g(j) == 0,
    ensures
        conv_sum(f, g, l, i) == 0,
    decreases i,
{
    if i > 0 {
        lemma_conv_zero_right(f, g, l, (i - 1) as nat);
        let k = (l - (i - 1)) as nat;
        assert(f((i - 1) as nat) * g(k) == 0) by (nonlinear_arith)
            requires
                g(k) == 0;
    }
}

/// The empty string alone on the left leaves the right side unchanged.
proof fn lemma_conv_unit_left(f: spec_fn(nat) -> nat, g: spec_fn(nat) -> nat, l: nat, i: nat)
    requires
        1 <= i <= l + 1,
        forall|j: nat| j <= l ==> #[trigger] f(j) == if j == 0 { 1nat } else { 0nat },
    ensures
        conv_sum(f, g, l, i) == g(l),
    decreases i,
{
    if i > 1 {
        lemma_conv_unit_left(f, g, l, (i - 1) as nat);
        let j = (i - 1) as nat;
        assert(f(j) * g((l - j) as nat) == 0) by (nonlinear_arith)
            requires
                f(j) == 0;
    } else {
        assert(conv_sum(f, g, l, 0) == 0);
        assert(f(0) * g(l) == g(l)) by (nonlinear_arith)
            requires
                f(0) == 1;
    }
}

proof fn lemma_conv_swap_step(f: spec_fn(nat) -> nat, g: spec_fn(nat) -> nat, l: nat, i: nat)
    requires
        i <= l + 1,
    ensures
        conv_sum(f, g, l, i) + conv_sum(g, f, l, (l + 1 - i) as nat) == conv_sum(f, g, l, l + 1),
    decreases l + 1 - i,
{
    if i < l + 1 {
        lemma_conv_swap_step(f, g, l, i + 1);
        let k = (l - i) as nat;
        assert(conv_sum(g, f, l, (l + 1 - i) as nat) == conv_sum(g, f, l, k) + g(k) * f((l - k) as nat));
        assert((l - k) as nat == i);
        assert(g(k) * f(i) == f(i) * g(k)) by (nonlinear_arith);
        assert((l + 1 - (i + 1)) as nat == k);
    } else {
        assert(conv_sum(g, f, l, 0) == 0);
    }
}

/// Splitting a length is symmetric in the two sides.
proof fn lemma_conv_commutes(f: spec_fn(nat) -> nat, g: spec_fn(nat) -> nat, l: nat)
    ensures
        conv(f, g, l) == conv(g, f, l),
{
    lemma_conv_swap_step(f, g, l, 0);
}


proof fn lemma_conv_zero_left(f: spec_fn(nat) -> nat, g: spec_fn(nat) -> nat, l: nat, i: nat)
    requires
        i <= l + 1,
        forall|j: nat| j <= l ==> #[trigger] f(j) == 0,
    ensures
        conv_sum(f, g, l, i) == 0,
    decreases i,
{
    if i > 0 {
        lemma_conv_zero_left(f, g, l, (i - 1) as nat);
        let j = (i - 1) as nat;
        assert(f(j) * g((l - j) as nat) == 0) by (nonlinear_arith)
            requires
                f(j) == 0;
    }
}

proof fn lemma_conv_delta_right(f: spec_fn(nat) -> nat, g: spec_fn(nat) -> nat, b: nat, l: nat, i: nat)
    requires
        i <= l + 1,
        forall|j: nat| j <= l ==> #[trigger] g(j) == if j == b { 1nat } else { 0nat },
    ensures
        conv_sum(f, g, l, i) == if b <= l && l - b < i { f((l - b) as nat) } else { 0 },
    decreases i,
{
    if i > 0 {
        let j = (i - 1) as nat;
        lemma_conv_delta_right(f, g, b, l, j);
        let k = (l - j) as nat;
        if k == b {
            assert(f(j) * g(k) == f(j)) by (nonlinear_arith)
                requires
                    g(k) == 1;
        } else {
            assert(f(j) * g(k) == 0) by (nonlinear_arith)
                requires
                    g(k) == 0;
        }
    }
}

proof fn lemma_join_one_lengths(x: Seq<u8>, ys: Strings, max: usize, l: nat)
    requires
        l <= max,
    ensures
        count_len(join_one(x, ys, Some(max)), l) == if x.len() <= l { count_len(ys, (l - x.len()) as nat) } else { 0 },
    decreases ys.len(),
{
    if ys.len() > 0 {
        lemma_join_one_lengths(x, ys.drop_last(), max, l);
        let y = ys.last();
        let prev = join_one(x, ys.drop_last(), Some(max));
        if fits(x.len() + y.len(), Some(max)) {
            assert(prev.push(x + y).drop_last() =~= prev);
        }
    }
}

proof fn lemma_join_one_inv_lengths(xs: Strings, y: Seq<u8>, max: usize, l: nat)
    requires
        l <= max,
    ensures
        count_len(join_one_inv(xs, y, Some(max)), l) == if y.len() <= l { count_len(xs, (l - y.len()) as nat) } else { 0 },
    decreases xs.len(),
{
    if xs.len() > 0 {
        lemma_join_one_inv_lengths(xs.drop_last(), y, max, l);
        let x = xs.last();
        let prev = join_one_inv(xs.drop_last(), y, Some(max));
        if fits(x.len() + y.len(), Some(max)) {
            assert(prev.push(x + y).drop_last() =~= prev);
        }
    }
}

/// Concatenating two lists in regex order counts, per length, the ways to
/// split that length between them.
proof fn lemma_join_lengths(xs: Strings, ys: Strings, max: usize, l: nat)
    requires
        l <= max,
    ensures
        count_len(join(xs, ys, Some(max)), l) == conv(lengths_of(xs), lengths_of(ys), l),
    decreases xs.len(),
{
    if xs.len() == 0 {
        lemma_conv_zero_left(lengths_of(xs), lengths_of(ys), l, l + 1);
    } else {
        let xs0 = xs.drop_last();
        let x = xs.last();
        lemma_join_lengths(xs0, ys, max, l);
        lemma_count_len_concat(join(xs0, ys, Some(max)), join_one(x, ys, Some(max)), l);
        lemma_join_one_lengths(x, ys, max, l);
        assert forall|j: nat| j <= l implies #[trigger] lengths_of(xs)(j) == lengths_of(xs0)(j) + if j == x.len() { 1nat } else { 0nat } by {
        }
        lemma_conv_add_left(lengths_of(xs0), lengths_of(xs), lengths_of(ys), x.len(), 1, l, l + 1);
    }
}

/// The same holds in inverted order.
proof fn lemma_join_inv_lengths(xs: Strings, ys: Strings, max: usize, l: nat)
    requires
        l <= max,
    ensures
        count_len(join_inv(xs, ys, Some(max)), l) == conv(lengths_of(xs), lengths_of(ys), l),
    decreases ys.len(),
{
    if ys.len() == 0 {
        lemma_conv_zero_right(lengths_of(xs), lengths_of(ys), l, l + 1);
    } else {
        let ys0 = ys.drop_last();
        let y = ys.last();
        lemma_join_inv_lengths(xs, ys0, max, l);
        lemma_count_len_concat(join_inv(xs, ys0, Some(max)), join_one_inv(xs, y, Some(max)), l);
        lemma_join_one_inv_lengths(xs, y, max, l);
        let delta = |j: nat| if j == y.len() { 1nat } else { 0nat };
        assert forall|j: nat| j <= l implies #[trigger] lengths_of(ys)(j) == lengths_of(ys0)(j) + delta(j) by {
        }
        lemma_conv_add_right(lengths_of(xs), lengths_of(ys0), delta, lengths_of(ys), l, l + 1);
        lemma_conv_delta_right(lengths_of(xs), delta, y.len(), l, l + 1);
    }
}

proof fn lemma_pair_with_counts(l1: usize, c1: nat, cy: Counts, max: usize, x: usize)
    requires
        x <= max < usize::MAX,
    ensures
        count_at(pair_with(l1, c1, cy, Some(max)), x) == if l1 <= x { c1 * count_at(cy, (x - l1) as usize) } else { 0 },
    decreases cy.len(),
{
    if cy.len() == 0 {
        assert(c1 * 0 == 0) by (nonlinear_arith);
    } else {
        lemma_pair_with_counts(l1, c1, cy.drop_last(), max, x);
        let (l2, c2) = cy.last();
        let prev = pair_with(l1, c1, cy.drop_last(), Some(max));
        let len = sat_add(l1, l2);
        let here: nat = if within(len, Some(max)) && len == x { c1 * c2 } else { 0 };
        if within(len, Some(max)) {
            let p = prev.push((len, c1 * c2));
            assert(p.drop_last() =~= prev);
            assert(count_at(p, x) == count_at(prev, x) + here);
            assert(len == l1 + l2);
        } else {
            assert(count_at(pair_with(l1, c1, cy, Some(max)), x) == count_at(prev, x) + here);
        }
        assert(count_at(cy, (x - l1) as usize) == count_at(cy.drop_last(), (x - l1) as usize)
            + if l2 == (x - l1) as usize { c2 } else { 0 }) by {
        }
        if l1 <= x {
            let rest = count_at(cy.drop_last(), (x - l1) as usize);
            let add: nat = if l2 == (x - l1) as usize { c2 } else { 0 };
            assert(c1 * (rest + add) == c1 * rest + c1 * add) by (nonlinear_arith);
            if l2 == (x - l1) as usize {
                assert(here == c1 * c2);
                assert(c1 * add == c1 * c2);
            } else {
                assert(here == 0);
                assert(c1 * add == 0) by (nonlinear_arith)
                    requires
                        add == 0;
            }
        } else {
            assert(here == 0);
        }
    }
}

/// Pairing two distributions counts, per length, the ways to split that
/// length between them.
proof fn lemma_pairs_counts(cx: Counts, cy: Counts, max: usize, x: usize)
    requires
        x <= max < usize::MAX,
    ensures
        count_at(pairs(cx, cy, Some(max)), x) == conv(counts_fn(cx), counts_fn(cy), x as nat),
    decreases cx.len(),
{
    let l = x as nat;
    if cx.len() == 0 {
        lemma_conv_zero_left(counts_fn(cx), counts_fn(cy), l, l + 1);
    } else {
        let cx0 = cx.drop_last();
        let (l1, c1) = cx.last();
        lemma_pairs_counts(cx0, cy, max, x);
        lemma_count_at_concat(pairs(cx0, cy, Some(max)), pair_with(l1, c1, cy, Some(max)), x);
        lemma_pair_with_counts(l1, c1, cy, max, x);
        assert forall|j: nat| j <= l implies #[trigger] counts_fn(cx)(j) == counts_fn(cx0)(j) + if j == l1 { c1 } else { 0 } by {
        }
        lemma_conv_add_left(counts_fn(cx0), counts_fn(cx), counts_fn(cy), l1 as nat, c1, l, l + 1);
        if l1 <= x {
            assert(counts_fn(cy)((l - l1) as nat) == count_at(cy, (x - l1) as usize));
        }
    }
}


/// Concatenation in either order counts, per length, the ways to split it.
proof fn lemma_combine_lengths(xs: Strings, ys: Strings, max: usize, order: GenerationOrder, l: nat)
    requires
        l <= max,
    ensures
        count_len(combine(xs, ys, Some(max), order), l) == conv(lengths_of(xs), lengths_of(ys), l),
{
    match order {
        GenerationOrder::Default => lemma_join_lengths(xs, ys, max, l),
        GenerationOrder::Inverted => lemma_join_inv_lengths(xs, ys, max, l),
    }
}

proof fn lemma_unit_counts(i: nat)
    ensures
        counts_fn(unit_counts())(i) == if i == 0 { 1nat } else { 0nat },
{
    let u = unit_counts();
    assert(u.drop_last() =~= Seq::<(usize, nat)>::empty());
    if i <= usize::MAX {
        assert(count_at(u, i as usize) == count_at(u.drop_last(), i as usize) + if u.last().0 == i as usize { 1nat } else { 0nat });
    }
}

proof fn lemma_unit_lengths(l: nat)
    ensures
        count_len(seq![Seq::<u8>::empty()], l) == if l == 0 { 1nat } else { 0nat },
{
    let u = seq![Seq::<u8>::empty()];
    assert(u.drop_last() =~= Seq::<Seq<u8>>::empty());
    assert(u.last().len() == 0);
    assert(count_len(u.drop_last(), l) == 0);
}

/// Every node of the tree has a finite distribution.
pub open spec fn all_finite(node: Node, max_len: Option<usize>) -> bool
    decreases node, 0nat,
{
    &&& !spec_dist(node, max_len).1
    &&& match node {
        Node::Capture(sub) => all_finite(*sub, max_len),
        Node::Repetition { sub, .. } => all_finite(*sub, max_len),
        Node::Concat(parts) => parts_finite(parts@, parts@.len(), max_len),
        Node::Alternation(parts) => parts_finite(parts@, parts@.len(), max_len),
        _ => true,
    }
}

/// The first `n` of `parts` have only finite distributions.
pub open spec fn parts_finite(parts: Seq<Node>, n: nat, max_len: Option<usize>) -> bool
    decreases parts, n,
{
    if n == 0 || n > parts.len() {
        true
    } else {
        parts_finite(parts, (n - 1) as nat, max_len) && all_finite(parts[n - 1], max_len)
    }
}

proof fn lemma_width_counts_concat(a: Seq<usize>, b: Seq<usize>)
    ensures
        width_counts(a + b) == width_counts(a) + width_counts(b),
{
    assert(width_counts(a + b) =~= width_counts(a) + width_counts(b));
}

proof fn lemma_range_agree(lo: u32, hi: int, max: usize, l: nat)
    requires
        l <= max,
        hi <= 0x10FFFF,
    ensures
        count_at(width_counts(range_widths(lo, hi)), l as usize) == count_len(range_strings(lo, hi, Some(max)), l),
    decreases hi - lo + 1,
{
    if hi >= lo {
        lemma_range_agree(lo, hi - 1, max, l);
        let c = hi as u32;
        let ws0 = range_widths(lo, hi - 1);
        let ss0 = range_strings(lo, hi - 1, Some(max));
        let enc = vstd::utf8::encode_scalar(c);
        assert(scalar_width(c) is Some <==> vstd::utf8::is_scalar(c));
        if vstd::utf8::is_scalar(c) {
            let w = scalar_width(c).unwrap();
            assert(enc.len() == w);
            assert(width_counts(ws0.push(w)) =~= width_counts(ws0).push((w, 1nat)));
            assert(width_counts(ws0).push((w, 1nat)).drop_last() =~= width_counts(ws0));
            if fits(enc.len(), Some(max)) {
                assert(ss0.push(enc).drop_last() =~= ss0);
            }
        }
    }
}

proof fn lemma_unicode_agree(ranges: Seq<(char, char)>, max: usize, l: nat)
    requires
        l <= max,
    ensures
        count_at(width_counts(unicode_widths(ranges)), l as usize) == count_len(unicode_strings(ranges, Some(max)), l),
    decreases ranges.len(),
{
    if ranges.len() > 0 {
        lemma_unicode_agree(ranges.drop_last(), max, l);
        let r = ranges.last();
        vstd::utf8::char_is_scalar(r.1);
        lemma_range_agree(r.0 as u32, (r.1 as u32) as int, max, l);
        lemma_width_counts_concat(unicode_widths(ranges.drop_last()), range_widths(r.0 as u32, (r.1 as u32) as int));
        lemma_count_at_concat(
            width_counts(unicode_widths(ranges.drop_last())),
            width_counts(range_widths(r.0 as u32, (r.1 as u32) as int)),
            l as usize,
        );
        lemma_count_len_concat(
            unicode_strings(ranges.drop_last(), Some(max)),
            range_strings(r.0 as u32, (r.1 as u32) as int, Some(max)),
            l,
        );
    }
}

proof fn lemma_ones_agree(n: nat, b0: int, l: nat)
    requires
        l <= usize::MAX,
    ensures
        count_at(width_counts(Seq::new(n, |i: int| 1usize)), l as usize) == if l == 1 { n } else { 0 },
        count_len(Seq::new(n, |i: int| seq![(b0 + i) as u8]), l) == if l == 1 { n } else { 0 },
    decreases n,
{
    if n > 0 {
        lemma_ones_agree((n - 1) as nat, b0, l);
        let ones = Seq::new(n, |i: int| 1usize);
        assert(width_counts(ones).drop_last() =~= width_counts(Seq::new((n - 1) as nat, |i: int| 1usize)));
        let strs = Seq::new(n, |i: int| seq![(b0 + i) as u8]);
        assert(strs.drop_last() =~= Seq::new((n - 1) as nat, |i: int| seq![(b0 + i) as u8]));
    }
}

proof fn lemma_bytes_agree(ranges: Seq<(u8, u8)>, max: usize, l: nat)
    requires
        l <= max,
    ensures
        count_at(width_counts(byte_widths(ranges)), l as usize) == count_len(byte_strings(ranges, Some(max)), l),
    decreases ranges.len(),
{
    if ranges.len() > 0 {
        lemma_bytes_agree(ranges.drop_last(), max, l);
        let r = ranges.last();
        let n: nat = if r.0 <= r.1 { (r.1 - r.0 + 1) as nat } else { 0 };
        let ones = Seq::new(n, |i: int| 1usize);
        lemma_width_counts_concat(byte_widths(ranges.drop_last()), ones);
        lemma_count_at_concat(width_counts(byte_widths(ranges.drop_last())), width_counts(ones), l as usize);
        let tail: Strings = if r.0 <= r.1 && fits(1, Some(max)) {
            Seq::new((r.1 - r.0 + 1) as nat, |i: int| seq![(r.0 + i) as u8])
        } else {
            seq![]
        };
        lemma_count_len_concat(byte_strings(ranges.drop_last(), Some(max)), tail, l);
        lemma_ones_agree(n, r.0 as int, l);
        if r.0 <= r.1 && fits(1, Some(max)) {
            lemma_ones_agree((r.1 - r.0 + 1) as nat, r.0 as int, l);
        }
    }
}

/// The counts of `d` and more repetitions of `base`, `n` of them, each
/// counted where the repetition count reaches `min`.
pub open spec fn psum(base: Counts, min: nat, d: nat, n: nat, max: usize, l: nat) -> nat
    decreases n,
{
    if n == 0 {
        0
    } else {
        psum(base, min, d, (n - 1) as nat, max, l) + if d + (n - 1) >= min {
            counts_fn(power(base, (n - 1) as nat, Some(max)))(l)
        } else {
            0
        }
    }
}

proof fn lemma_power_step(base: Counts, k: nat, max: usize, l: nat)
    requires
        l <= max < usize::MAX,
    ensures
        counts_fn(power(base, k + 1, Some(max)))(l) == conv(counts_fn(base), counts_fn(power(base, k, Some(max))), l),
{
    let pk = power(base, k, Some(max));
    let parts = seq![pk, base];
    assert(parts.drop_last() =~= seq![pk]);
    assert(seq![pk].drop_last() =~= Seq::<Counts>::empty());
    let a0 = pairs(unit_counts(), pk, Some(max));
    let a = compact(a0);
    assert(seq![pk].last() == pk);
    assert(concat_counts(Seq::<Counts>::empty(), Some(max)) == unit_counts());
    assert(concat_counts(seq![pk], Some(max)) == a);
    assert(power(base, k + 1, Some(max)) == compact(pairs(a, base, Some(max))));
    lemma_compact(pairs(a, base, Some(max)));
    lemma_pairs_counts(a, base, max, l as usize);
    assert forall|j: nat| j <= l implies #[trigger] counts_fn(a)(j) == counts_fn(pk)(j) by {
        lemma_compact(a0);
        lemma_pairs_counts(unit_counts(), pk, max, j as usize);
        assert forall|i: nat| i <= j implies #[trigger] counts_fn(unit_counts())(i) == if i == 0 { 1nat } else { 0nat } by {
            lemma_unit_counts(i);
        }
        lemma_conv_unit_left(counts_fn(unit_counts()), counts_fn(pk), j, j + 1);
    }
    lemma_conv_ext(counts_fn(a), counts_fn(pk), counts_fn(base), counts_fn(base), l, l + 1);
    lemma_conv_commutes(counts_fn(pk), counts_fn(base), l);
}

proof fn lemma_psum_step(base: Counts, min: nat, d: nat, n: nat, max: usize, l: nat)
    requires
        l <= max < usize::MAX,
    ensures
        psum(base, min, d, n + 1, max, l) == (if d >= min && l == 0 { 1nat } else { 0nat })
            + conv(counts_fn(base), |i: nat| psum(base, min, d + 1, n, max, i), l),
    decreases n,
{
    let f = counts_fn(base);
    if n == 0 {
        lemma_unit_counts(l);
        assert(power(base, 0, Some(max)) == unit_counts());
        assert(psum(base, min, d, 0, max, l) == 0);
        assert(psum(base, min, d, 1, max, l) == if d >= min { counts_fn(power(base, 0, Some(max)))(l) } else { 0 });
        lemma_conv_zero_right(f, |i: nat| psum(base, min, d + 1, n, max, i), l, l + 1);
    } else {
        let m = (n - 1) as nat;
        lemma_psum_step(base, min, d, m, max, l);
        let g1 = |i: nat| psum(base, min, d + 1, m, max, i);
        let pn = counts_fn(power(base, m, Some(max)));
        let g2 = |i: nat| if d + 1 + m >= min { pn(i) } else { 0 };
        let g = |i: nat| psum(base, min, d + 1, n, max, i);
        assert forall|j: nat| j <= l implies #[trigger] g(j) == g1(j) + g2(j) by {
        }
        lemma_conv_add_right(f, g1, g2, g, l, l + 1);
        assert(psum(base, min, d, n + 1, max, l) == psum(base, min, d, n, max, l)
            + if d + n >= min { counts_fn(power(base, n, Some(max)))(l) } else { 0 });
        if d + 1 + m >= min {
            lemma_conv_ext(f, f, g2, pn, l, l + 1);
            lemma_power_step(base, m, max, l);
            assert(m + 1 == n);
            assert(conv(f, g2, l) == counts_fn(power(base, n, Some(max)))(l));
        } else {
            lemma_conv_zero_right(f, g2, l, l + 1);
        }
    }
}

proof fn lemma_repetitions_counts(base: Counts, min: nat, upto: nat, max: usize, l: nat)
    requires
        l <= max,
    ensures
        count_at(repetitions(base, min, upto, Some(max)), l as usize) == psum(base, min, 0, upto, max, l),
    decreases upto,
{
    if upto > 0 {
        let k = (upto - 1) as nat;
        lemma_repetitions_counts(base, min, k, max, l);
        let tail: Counts = if k >= min { power(base, k, Some(max)) } else { seq![] };
        lemma_count_at_concat(repetitions(base, min, k, Some(max)), tail, l as usize);
    }
}

proof fn lemma_rep_strings_counts(s: Strings, base: Counts, min: nat, bound: nat, d: nat, max: usize, order: GenerationOrder, l: nat)
    requires
        l <= max < usize::MAX,
        d <= bound,
        forall|i: nat| i <= max ==> #[trigger] count_len(s, i) == counts_fn(base)(i),
    ensures
        count_len(rep_strings(s, min, bound, d, Some(max), order), l) == psum(base, min, d, (bound - d + 1) as nat, max, l),
    decreases bound - d,
{
    let head: Strings = if d >= min { seq![seq![]] } else { seq![] };
    lemma_unit_lengths(l);
    assert(count_len(head, l) == if d >= min && l == 0 { 1nat } else { 0nat }) by {
        if d < min {
            assert(count_len(head, l) == 0);
        }
    }
    lemma_psum_step(base, min, d, (bound - d) as nat, max, l);
    if d >= bound {
        assert(rep_strings(s, min, bound, d, Some(max), order) == head);
        lemma_conv_zero_right(counts_fn(base), |i: nat| psum(base, min, d + 1, 0, max, i), l, l + 1);
    } else {
        let next = rep_strings(s, min, bound, d + 1, Some(max), order);
        assert forall|i: nat| i <= l implies #[trigger] count_len(next, i) == psum(base, min, d + 1, (bound - d) as nat, max, i) by {
            lemma_rep_strings_counts(s, base, min, bound, d + 1, max, order, i);
            assert((bound - (d + 1) + 1) as nat == (bound - d) as nat);
        }
        lemma_count_len_concat(head, combine(s, next, Some(max), order), l);
        lemma_combine_lengths(s, next, max, order, l);
        lemma_conv_ext(
            lengths_of(s),
            counts_fn(base),
            lengths_of(next),
            |i: nat| psum(base, min, d + 1, (bound - d) as nat, max, i),
            l,
            l + 1,
        );
    }
}


proof fn lemma_empty_power(min: nat, d: nat, n: nat, max: usize, l: nat)
    requires
        l <= max < usize::MAX,
    ensures
        psum(Seq::<(usize, nat)>::empty(), min, d, n, max, l) == if n > 0 && d >= min && l == 0 { 1nat } else { 0nat },
    decreases n,
{
    let e = Seq::<(usize, nat)>::empty();
    if n > 0 {
        lemma_empty_power(min, d, (n - 1) as nat, max, l);
        let k = (n - 1) as nat;
        if k == 0 {
            lemma_unit_counts(l);
            assert(power(e, 0, Some(max)) == unit_counts());
        } else {
            lemma_power_step(e, (k - 1) as nat, max, l);
            lemma_conv_zero_left(counts_fn(e), counts_fn(power(e, (k - 1) as nat, Some(max))), l, l + 1);
            assert(((k - 1) as nat + 1) as nat == k);
        }
    }
}

proof fn lemma_dists_push(parts: Seq<Node>, n: nat, max_len: Option<usize>)
    requires
        0 < n <= parts.len(),
    ensures
        counts_of_dists(spec_dists(parts, n, max_len)).drop_last() == counts_of_dists(spec_dists(parts, (n - 1) as nat, max_len)),
        counts_of_dists(spec_dists(parts, n, max_len)).last() == spec_dist(parts[n - 1], max_len).0,
        counts_of_dists(spec_dists(parts, n, max_len)).len() == n,
{
    lemma_dists_len(parts, n, max_len);
    assert(counts_of_dists(spec_dists(parts, n, max_len)).drop_last() =~= counts_of_dists(spec_dists(parts, (n - 1) as nat, max_len)));
}

proof fn lemma_dists_len(parts: Seq<Node>, n: nat, max_len: Option<usize>)
    requires
        n <= parts.len(),
    ensures
        spec_dists(parts, n, max_len).len() == n,
    decreases n,
{
    if n > 0 {
        lemma_dists_len(parts, (n - 1) as nat, max_len);
    }
}

/// For concatenations and alternations of the first `n` of `parts`.
proof fn lemma_agree_parts(parts: Seq<Node>, n: nat, max: usize, order: GenerationOrder)
    requires
        max < usize::MAX,
        n <= parts.len(),
        parts_finite(parts, n, Some(max)),
    ensures
        spec_generate_concat(parts, n, Some(max), order) matches Ok(list) ==> forall|l: nat| l <= max
            ==> #[trigger] count_len(list, l) == counts_fn(concat_counts(counts_of_dists(spec_dists(parts, n, Some(max))), Some(max)))(l),
        spec_generate_alternation(parts, n, Some(max), order) matches Ok(list) ==> forall|l: nat| l <= max
            ==> #[trigger] count_len(list, l) == counts_fn(compact(flatten_counts(counts_of_dists(spec_dists(parts, n, Some(max))))))(l),
    decreases parts, n,
{
    let m = Some(max);
    if n == 0 {
        assert(counts_of_dists(spec_dists(parts, 0, m)) =~= Seq::<Counts>::empty());
        assert forall|l: nat| l <= max implies #[trigger] count_len(seq![Seq::<u8>::empty()], l) == counts_fn(unit_counts())(l) by {
            lemma_unit_counts(l);
            lemma_unit_lengths(l);
        }
        assert(flatten_counts(Seq::<Counts>::empty()) =~= Seq::<(usize, nat)>::empty());
        assert(compact(Seq::<(usize, nat)>::empty()) =~= Seq::<(usize, nat)>::empty());
    } else {
        let k = (n - 1) as nat;
        lemma_agree_parts(parts, k, max, order);
        lemma_dists_push(parts, n, m);
        let cs = counts_of_dists(spec_dists(parts, n, m));
        let cs0 = counts_of_dists(spec_dists(parts, k, m));
        let dn = spec_dist(parts[k as int], m).0;
        if let Ok(ys) = spec_generate(parts[k as int], m, order) {
            lemma_agree(parts[k as int], max, order);
            if let Ok(xs) = spec_generate_concat(parts, k, m, order) {
                let acc = concat_counts(cs0, m);
                assert(concat_counts(cs, m) == compact(pairs(acc, dn, m)));
                assert forall|l: nat| l <= max implies #[trigger] count_len(combine(xs, ys, m, order), l)
                    == counts_fn(concat_counts(cs, m))(l) by {
                    lemma_combine_lengths(xs, ys, max, order, l);
                    lemma_compact(pairs(acc, dn, m));
                    lemma_pairs_counts(acc, dn, max, l as usize);
                    lemma_conv_ext(lengths_of(xs), counts_fn(acc), lengths_of(ys), counts_fn(dn), l, l + 1);
                }
            }
            if let Ok(xs) = spec_generate_alternation(parts, k, m, order) {
                let fl0 = flatten_counts(cs0);
                assert(flatten_counts(cs) == fl0 + dn);
                assert forall|l: nat| l <= max implies #[trigger] count_len(xs + ys, l)
                    == counts_fn(compact(flatten_counts(cs)))(l) by {
                    lemma_count_len_concat(xs, ys, l);
                    lemma_compact(fl0 + dn);
                    lemma_compact(fl0);
                    lemma_count_at_concat(fl0, dn, l as usize);
                }
            }
        }
    }
}

/// Under a maximum length, generation yields, for every length up to it, as
/// many strings as analysis counts for that length, wherever every node of
/// the tree has a finite distribution.
pub proof fn lemma_agree(node: Node, max: usize, order: GenerationOrder)
    requires
        max < usize::MAX,
        all_finite(node, Some(max)),
        spec_generate(node, Some(max), order) is Ok,
    ensures
        forall|l: nat| l <= max ==> #[trigger] count_len(spec_generate(node, Some(max), order)->Ok_0, l)
            == counts_fn(spec_dist(node, Some(max)).0)(l),
    decreases node, 0nat,
{
    let m = Some(max);
    let list = spec_generate(node, m, order)->Ok_0;
    let dist = spec_dist(node, m).0;
    match node {
        Node::Empty => {
            assert forall|l: nat| l <= max implies #[trigger] count_len(list, l) == counts_fn(dist)(l) by {
                lemma_unit_counts(l);
                lemma_unit_lengths(l);
            }
        },
        Node::Look(_) => {
            assert forall|l: nat| l <= max implies #[trigger] count_len(list, l) == counts_fn(dist)(l) by {
                lemma_unit_counts(l);
                lemma_unit_lengths(l);
            }
        },
        Node::Literal(bytes) => {
            assert forall|l: nat| l <= max implies #[trigger] count_len(list, l) == counts_fn(dist)(l) by {
                assert(bytes.len() == bytes@.len());
                let one = seq![(bytes@.len() as usize, 1nat)];
                assert(one.drop_last() =~= Seq::<(usize, nat)>::empty());
                assert(count_at(one, l as usize) == count_at(one.drop_last(), l as usize) + if one.last().0 == l as usize { 1nat } else { 0nat });
                if fits(bytes@.len(), m) {
                    let b = seq![bytes@];
                    assert(b.drop_last() =~= Seq::<Seq<u8>>::empty());
                    assert(count_len(b, l) == count_len(b.drop_last(), l) + if b.last().len() == l { 1nat } else { 0nat });
                }
            }
        },
        Node::UnicodeClass(ranges) => {
            assert forall|l: nat| l <= max implies #[trigger] count_len(list, l) == counts_fn(dist)(l) by {
                lemma_compact(width_counts(unicode_widths(ranges@)));
                lemma_unicode_agree(ranges@, max, l);
            }
        },
        Node::ByteClass(ranges) => {
            assert forall|l: nat| l <= max implies #[trigger] count_len(list, l) == counts_fn(dist)(l) by {
                lemma_compact(width_counts(byte_widths(ranges@)));
                lemma_bytes_agree(ranges@, max, l);
            }
        },
        Node::Capture(sub) => {
            lemma_agree(*sub, max, order);
        },
        Node::Concat(parts) => {
            lemma_agree_parts(parts@, parts@.len(), max, order);
        },
        Node::Alternation(parts) => {
            lemma_agree_parts(parts@, parts@.len(), max, order);
        },
        Node::Repetition { min, max: most, sub } => {
            lemma_agree(*sub, max, order);
            let s = spec_generate(*sub, m, order)->Ok_0;
            let d = spec_dist(*sub, m);
            let bound = rep_bound(*sub, min, most, m)->Ok_0;
            assert(list == rep_strings(s, min as nat, bound, 0, m, order));
            assert forall|i: nat| i <= max implies #[trigger] count_len(s, i) == counts_fn(d.0)(i) by {
            }
            if d.0.len() == 0 {
                assert forall|l: nat| l <= max implies #[trigger] count_len(list, l) == counts_fn(dist)(l) by {
                    lemma_rep_strings_counts(s, d.0, min as nat, bound, 0, max, order, l);
                    assert(d.0 =~= Seq::<(usize, nat)>::empty());
                    lemma_empty_power(min as nat, 0, bound + 1, max, l);
                    lemma_unit_counts(l);
                    if min != 0 {
                        assert(dist =~= Seq::<(usize, nat)>::empty());
                    }
                }
            } else {
                let r = repetition_bound(d.0, most, m)->Some_0;
                assert(bound == r as nat);
                assert forall|l: nat| l <= max implies #[trigger] count_len(list, l) == counts_fn(dist)(l) by {
                    lemma_rep_strings_counts(s, d.0, min as nat, bound, 0, max, order, l);
                    lemma_repetitions_counts(d.0, min as nat, r as nat + 1, max, l);
                    lemma_compact(repetitions(d.0, min as nat, r as nat + 1, m));
                }
            }
        },
    }
}


/// `f(l)`, and `l * f(l)` where `weighted`, summed over the `n` lengths from
/// `lo` on.
pub open spec fn range_sum(f: spec_fn(nat) -> nat, weighted: bool, lo: nat, n: nat) -> nat
    decreases n,
{
    if n == 0 {
        0
    } else {
        let l = (lo + n - 1) as nat;
        range_sum(f, weighted, lo, (n - 1) as nat) + if weighted { l * f(l) } else { f(l) }
    }
}

proof fn lemma_range_sum_add(f: spec_fn(nat) -> nat, f1: spec_fn(nat) -> nat, weighted: bool, a: nat, c: nat, lo: nat, n: nat)
    requires
        forall|l: nat| lo <= l < lo + n ==> #[trigger] f1(l) == f(l) + if l == a { c } else { 0 },
    ensures
        range_sum(f1, weighted, lo, n) == range_sum(f, weighted, lo, n)
            + if lo <= a < lo + n { if weighted { a * c } else { c } } else { 0 },
    decreases n,
{
    if n > 0 {
        lemma_range_sum_add(f, f1, weighted, a, c, lo, (n - 1) as nat);
        let l = (lo + n - 1) as nat;
        if weighted {
            assert(l * f1(l) == l * f(l) + l * (if l == a { c } else { 0 })) by (nonlinear_arith)
                requires
                    f1(l) == f(l) + if l == a { c } else { 0 };
            if l == a {
                assert(l * c == a * c);
            } else {
                assert(l * 0 == 0) by (nonlinear_arith);
            }
        }
    }
}

proof fn lemma_range_sum_zero(f: spec_fn(nat) -> nat, weighted: bool, lo: nat, n: nat)
    requires
        forall|l: nat| lo <= l < lo + n ==> #[trigger] f(l) == 0,
    ensures
        range_sum(f, weighted, lo, n) == 0,
    decreases n,
{
    if n > 0 {
        lemma_range_sum_zero(f, weighted, lo, (n - 1) as nat);
        let l = (lo + n - 1) as nat;
        assert(l * f(l) == 0) by (nonlinear_arith)
            requires
                f(l) == 0;
    }
}

proof fn lemma_range_sum_ext(f: spec_fn(nat) -> nat, g: spec_fn(nat) -> nat, weighted: bool, lo: nat, n: nat)
    requires
        forall|l: nat| lo <= l < lo + n ==> #[trigger] f(l) == g(l),
    ensures
        range_sum(f, weighted, lo, n) == range_sum(g, weighted, lo, n),
    decreases n,
{
    if n > 0 {
        lemma_range_sum_ext(f, g, weighted, lo, (n - 1) as nat);
    }
}

/// The number of lengths from `min` up to `max`.
pub open spec fn span(min: usize, max: usize) -> nat {
    if min <= max { (max - min + 1) as nat } else { 0 }
}

proof fn lemma_filtered_sums(s: Counts, min: usize, max: usize)
    ensures
        sum_counts(filter_counts(s, min, Some(max))) == range_sum(counts_fn(s), false, min as nat, span(min, max)),
        sum_bytes(filter_counts(s, min, Some(max))) == range_sum(counts_fn(s), true, min as nat, span(min, max)),
    decreases s.len(),
{
    let n = span(min, max);
    if s.len() == 0 {
        lemma_range_sum_zero(counts_fn(s), false, min as nat, n);
        lemma_range_sum_zero(counts_fn(s), true, min as nat, n);
    } else {
        let s0 = s.drop_last();
        let (l0, c0) = s.last();
        lemma_filtered_sums(s0, min, max);
        assert forall|l: nat| min <= l < min + n implies #[trigger] counts_fn(s)(l) == counts_fn(s0)(l) + if l == l0 { c0 } else { 0 } by {
        }
        lemma_range_sum_add(counts_fn(s0), counts_fn(s), false, l0 as nat, c0, min as nat, n);
        lemma_range_sum_add(counts_fn(s0), counts_fn(s), true, l0 as nat, c0, min as nat, n);
        let f0 = filter_counts(s0, min, Some(max));
        if l0 >= min && l0 <= max {
            assert(f0.push((l0, c0)).drop_last() =~= f0);
            assert(c0 * (l0 as nat) == (l0 as nat) * c0) by (nonlinear_arith);
        }
    }
}

proof fn lemma_kept_sums(list: Strings, min: usize, max: usize)
    requires
        all_fit(list, Some(max)),
    ensures
        at_least(list, min).len() == range_sum(lengths_of(list), false, min as nat, span(min, max)),
    decreases list.len(),
{
    let n = span(min, max);
    if list.len() == 0 {
        lemma_range_sum_zero(lengths_of(list), false, min as nat, n);
    } else {
        let l0 = list.drop_last();
        let x = list.last();
        assert(all_fit(l0, Some(max))) by {
            assert forall|i: int| 0 <= i < l0.len() implies fits(#[trigger] l0[i].len(), Some(max)) by {
                assert(l0[i] == list[i]);
            }
        }
        assert(fits(list[list.len() - 1].len(), Some(max)));
        lemma_kept_sums(l0, min, max);
        assert forall|l: nat| min <= l < min + n implies #[trigger] lengths_of(list)(l) == lengths_of(l0)(l) + if l == x.len() { 1nat } else { 0nat } by {
        }
        lemma_range_sum_add(lengths_of(l0), lengths_of(list), false, x.len(), 1, min as nat, n);
    }
}

/// The total length of a list of byte strings.
pub open spec fn total_len(list: Strings) -> nat
    decreases list.len(),
{
    if list.len() == 0 { 0 } else { total_len(list.drop_last()) + list.last().len() }
}

/// The total UTF-8 byte length of a list of strings.
pub open spec fn total_utf8_len(list: Seq<Seq<char>>) -> nat
    decreases list.len(),
{
    if list.len() == 0 { 0 } else { total_utf8_len(list.drop_last()) + vstd::utf8::encode_utf8(list.last()).len() }
}

proof fn lemma_kept_bytes(list: Strings, min: usize, max: usize)
    requires
        all_fit(list, Some(max)),
    ensures
        total_len(at_least(list, min)) == range_sum(lengths_of(list), true, min as nat, span(min, max)),
    decreases list.len(),
{
    let n = span(min, max);
    if list.len() == 0 {
        lemma_range_sum_zero(lengths_of(list), true, min as nat, n);
    } else {
        let l0 = list.drop_last();
        let x = list.last();
        assert(all_fit(l0, Some(max))) by {
            assert forall|i: int| 0 <= i < l0.len() implies fits(#[trigger] l0[i].len(), Some(max)) by {
                assert(l0[i] == list[i]);
            }
        }
        assert(fits(list[list.len() - 1].len(), Some(max)));
        lemma_kept_bytes(l0, min, max);
        assert forall|l: nat| min <= l < min + n implies #[trigger] lengths_of(list)(l) == lengths_of(l0)(l) + if l == x.len() { 1nat } else { 0nat } by {
        }
        lemma_range_sum_add(lengths_of(l0), lengths_of(list), true, x.len(), 1, min as nat, n);
        let k0 = at_least(l0, min);
        if x.len() >= min {
            assert(k0.push(x).drop_last() =~= k0);
        }
    }
}

proof fn lemma_decoded_bytes(list: Strings)
    requires
        all_utf8(list),
    ensures
        total_utf8_len(decode_all(list)) == total_len(list),
    decreases list.len(),
{
    if list.len() > 0 {
        let l0 = list.drop_last();
        assert(all_utf8(l0)) by {
            assert forall|i: int| 0 <= i < l0.len() implies vstd::utf8::valid_utf8(#[trigger] l0[i]) by {
                assert(l0[i] == list[i]);
            }
        }
        lemma_decoded_bytes(l0);
        assert(decode_all(list).drop_last() =~= decode_all(l0));
        assert(vstd::utf8::valid_utf8(list[list.len() - 1]));
        vstd::utf8::decode_utf8_encode_utf8(list.last());
    }
}

/// Generation yields the Corpus that analysis measures: under a maximum
/// length below `usize::MAX`, where every node of the tree has a finite
/// distribution, the Corpus Byte Size is the total Byte Length of the
/// generated Match Strings.
pub proof fn law_generation_yields_byte_size(tree: Node, constraints: LengthConstraints, order: GenerationOrder)
    requires
        constraints.max matches Some(max) && max < usize::MAX,
        all_finite(tree, constraints.max),
        spec_candidates(tree, constraints, order) is Ok,
    ensures
        spec_stats(spec_filtered(spec_dist(tree, constraints.max), constraints.min, constraints.max)).1
            == Some(total_utf8_len(spec_candidates(tree, constraints, order)->Ok_0)),
{
    let max = constraints.max.unwrap();
    let min = constraints.min;
    let list = spec_generate(tree, constraints.max, order)->Ok_0;
    let dist = spec_dist(tree, constraints.max).0;
    lemma_agree(tree, max, order);
    law_generated_strings_fit(tree, constraints.max, order);
    lemma_filtered_sums(dist, min, max);
    lemma_kept_bytes(list, min, max);
    lemma_range_sum_ext(lengths_of(list), counts_fn(dist), true, min as nat, span(min, max));
    lemma_decoded_bytes(at_least(list, min));
}

/// Generation yields the Corpus that analysis counts: under a maximum
/// length below `usize::MAX`, where every node of the tree has a finite
/// distribution, the Match Count is the number of generated Match Strings.
pub proof fn law_generation_yields_match_count(tree: Node, constraints: LengthConstraints, order: GenerationOrder)
    requires
        constraints.max matches Some(max) && max < usize::MAX,
        all_finite(tree, constraints.max),
        spec_candidates(tree, constraints, order) is Ok,
    ensures
        spec_stats(spec_filtered(spec_dist(tree, constraints.max), constraints.min, constraints.max)).0
            == Some(spec_candidates(tree, constraints, order)->Ok_0.len()),
{
    let max = constraints.max.unwrap();
    let min = constraints.min;
    let list = spec_generate(tree, constraints.max, order)->Ok_0;
    let dist = spec_dist(tree, constraints.max).0;
    lemma_agree(tree, max, order);
    law_generated_strings_fit(tree, constraints.max, order);
    lemma_filtered_sums(dist, min, max);
    lemma_kept_sums(list, min, max);
    lemma_range_sum_ext(lengths_of(list), counts_fn(dist), false, min as nat, span(min, max));
    assert(decode_all(at_least(list, min)).len() == at_least(list, min).len());
}

/// A concatenation of one part counts, at each length up to the maximum,
/// what the part counts.
proof fn lemma_concat_one(a: Counts, max: usize, y: usize)
    requires
        y <= max < usize::MAX,
    ensures
        count_at(concat_counts(seq![a], Some(max)), y) == count_at(a, y),
{
    let s = seq![a];
    let u = unit_counts();
    assert(s.drop_last() =~= Seq::<Counts>::empty());
    assert(s.last() == a);
    assert(concat_counts(s.drop_last(), Some(max)) == u);
    assert(concat_counts(s, Some(max)) == compact(pairs(u, a, Some(max))));
    lemma_compact(pairs(u, a, Some(max)));
    lemma_pairs_counts(u, a, max, y);
    assert forall|j: nat| j <= y implies #[trigger] counts_fn(u)(j) == if j == 0 { 1nat } else { 0nat } by {
        lemma_unit_counts(j);
    }
    lemma_conv_unit_left(counts_fn(u), counts_fn(a), y as nat, y as nat + 1);
}

/// Concatenation does not depend on the order of two parts: under a maximum
/// length, it counts as many strings of each length up to it either way, and
/// is infinite either way or neither.
pub proof fn law_concatenation_commutes(a: SpecDist, b: SpecDist, max: usize, x: usize)
    requires
        x <= max < usize::MAX,
    ensures
        count_at(spec_concat(seq![a, b], Some(max)).0, x) == count_at(spec_concat(seq![b, a], Some(max)).0, x),
        spec_concat(seq![a, b], Some(max)).1 == spec_concat(seq![b, a], Some(max)).1,
{
    let ab = seq![a, b];
    let ba = seq![b, a];
    assert(counts_of_dists(ab) =~= seq![a.0, b.0]);
    assert(counts_of_dists(ba) =~= seq![b.0, a.0]);
    let cab = seq![a.0, b.0];
    let cba = seq![b.0, a.0];
    assert(cab.drop_last() =~= seq![a.0]);
    assert(cba.drop_last() =~= seq![b.0]);
    let ca = concat_counts(seq![a.0], Some(max));
    let cb = concat_counts(seq![b.0], Some(max));
    assert(cab.last() == b.0 && cba.last() == a.0);
    assert(concat_counts(cab, Some(max)) == compact(pairs(ca, b.0, Some(max))));
    assert(concat_counts(cba, Some(max)) == compact(pairs(cb, a.0, Some(max))));
    lemma_compact(pairs(ca, b.0, Some(max)));
    lemma_compact(pairs(cb, a.0, Some(max)));
    lemma_pairs_counts(ca, b.0, max, x);
    lemma_pairs_counts(cb, a.0, max, x);
    assert forall|j: nat| j <= x implies #[trigger] counts_fn(ca)(j) == counts_fn(a.0)(j) by {
        lemma_concat_one(a.0, max, j as usize);
    }
    assert forall|j: nat| j <= x implies #[trigger] counts_fn(cb)(j) == counts_fn(b.0)(j) by {
        lemma_concat_one(b.0, max, j as usize);
    }
    lemma_conv_ext(counts_fn(ca), counts_fn(a.0), counts_fn(b.0), counts_fn(b.0), x as nat, x as nat + 1);
    lemma_conv_ext(counts_fn(cb), counts_fn(b.0), counts_fn(a.0), counts_fn(a.0), x as nat, x as nat + 1);
    lemma_conv_commutes(counts_fn(a.0), counts_fn(b.0), x as nat);
    assert(any_infinite(ab) == any_infinite(ba)) by {
        if any_infinite(ab) {
            let i = choose|i: int| 0 <= i < ab.len() && ab[i].1;
            assert(ba[1 - i] == ab[i]);
        }
        if any_infinite(ba) {
            let i = choose|i: int| 0 <= i < ba.len() && ba[i].1;
            assert(ab[1 - i] == ba[i]);
        }
    }
}

/// Under a maximum length, a repetition with an upper bound counts at each
/// length up to the maximum the strings of `k` pieces summed over `k` from
/// the least to the most repetitions; and the strings of `k + 1` pieces are
/// the convolution of the part's counts with those of `k` pieces.
pub proof fn law_repetition_counts(base: Counts, min: u32, most: u32, max: usize, l: usize)
    requires
        l <= max < usize::MAX,
        base.len() > 0,
    ensures
        count_at(spec_repeat((base, false), min, Some(most), Some(max)).0, l)
            == psum(base, min as nat, 0, most as nat + 1, max, l as nat),
        forall|k: nat| #[trigger] counts_fn(power(base, k + 1, Some(max)))(l as nat)
            == conv(counts_fn(base), counts_fn(power(base, k, Some(max))), l as nat),
{
    let r = repetitions(base, min as nat, most as nat + 1, Some(max));
    assert(spec_repeat((base, false), min, Some(most), Some(max)).0 == compact(r));
    lemma_compact(r);
    lemma_repetitions_counts(base, min as nat, most as nat + 1, max, l as nat);
    assert forall|k: nat| #[trigger] counts_fn(power(base, k + 1, Some(max)))(l as nat)
        == conv(counts_fn(base), counts_fn(power(base, k, Some(max))), l as nat) by {
        lemma_power_step(base, k, max, l as nat);
    }
}

} // verus!
