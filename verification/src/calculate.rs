//! Match Count and Corpus Byte Size: the number of strings of each byte
//! length that a pattern describes, and their sums.
use crate::corpus::LengthConstraints;
use crate::error::Error;
use crate::error::Unsupported;
use crate::natural::{decimal, Natural};
use crate::syntax::{anchors_in_place, anchors_ok, Node};
use crate::unique::{is_unique, spec_unique};
use vstd::prelude::*;

verus! {

/// Counts per byte length: `(length, count)` pairs.
pub type Counts = Seq<(usize, nat)>;

/// The counts that a list of exec `(length, count)` pairs holds.
pub open spec fn counts_of(items: Seq<(usize, Natural)>) -> Counts {
    items.map_values(|p: (usize, Natural)| (p.0, p.1@))
}

proof fn lemma_counts_push(items: Seq<(usize, Natural)>, x: (usize, Natural))
    ensures
        counts_of(items.push(x)) == counts_of(items).push((x.0, x.1@)),
{
    assert(counts_of(items.push(x)) =~= counts_of(items).push((x.0, x.1@)));
}

/// Lengths strictly increase from one pair to the next.
pub open spec fn strictly_sorted(s: Counts) -> bool {
    forall|i: int, j: int| 0 <= i < j < s.len() ==> s[i].0 < s[j].0
}

/// The count recorded for `len` in `s`, summed over every pair for it.
pub open spec fn count_at(s: Counts, len: usize) -> nat
    decreases s.len(),
{
    if s.len() == 0 {
        0
    } else {
        count_at(s.drop_last(), len) + (if s.last().0 == len { s.last().1 } else { 0 })
    }
}

/// Adds `c` strings of length `len` to the sorted counts `s`: the pair for
/// `len` grows, or a new pair goes in at its place.
pub open spec fn insert_count(s: Counts, len: usize, c: nat) -> Counts
    decreases s.len(),
{
    if s.len() == 0 {
        seq![(len, c)]
    } else if s.last().0 == len {
        s.drop_last().push((len, s.last().1 + c))
    } else if s.last().0 < len {
        s.push((len, c))
    } else {
        insert_count(s.drop_last(), len, c).push(s.last())
    }
}

/// `s` with its pairs merged per length and sorted by length.
pub open spec fn compact(s: Counts) -> Counts
    decreases s.len(),
{
    if s.len() == 0 {
        seq![]
    } else {
        insert_count(compact(s.drop_last()), s.last().0, s.last().1)
    }
}

proof fn lemma_insert_sorted(s: Counts, len: usize, c: nat)
    requires
        strictly_sorted(s),
    ensures
        strictly_sorted(insert_count(s, len, c)),
        insert_count(s, len, c).len() > 0,
        insert_count(s, len, c).last().0 == if s.len() > 0 && s.last().0 > len { s.last().0 } else { len },
        forall|x: usize| count_at(insert_count(s, len, c), x) == count_at(s, x) + (if x == len { c } else { 0 }),
    decreases s.len(),
{
    let r = insert_count(s, len, c);
    if s.len() == 0 {
        assert(r.drop_last() =~= s);
        assert forall|x: usize| count_at(r, x) == count_at(s, x) + (if x == len { c } else { 0 }) by {
            assert(count_at(r.drop_last(), x) == 0);
        }
    } else if s.last().0 == len {
        assert(r.drop_last() =~= s.drop_last());
        assert forall|x: usize| count_at(r, x) == count_at(s, x) + (if x == len { c } else { 0 }) by {
            assert(count_at(r, x) == count_at(r.drop_last(), x) + (if r.last().0 == x { r.last().1 } else { 0 }));
        }
    } else if s.last().0 < len {
        assert(r.drop_last() =~= s);
        assert forall|x: usize| count_at(r, x) == count_at(s, x) + (if x == len { c } else { 0 }) by {
            assert(count_at(r, x) == count_at(r.drop_last(), x) + (if r.last().0 == x { r.last().1 } else { 0 }));
        }
    } else {
        let p = insert_count(s.drop_last(), len, c);
        assert(strictly_sorted(s.drop_last()));
        lemma_insert_sorted(s.drop_last(), len, c);
        assert(r.drop_last() =~= p);
        if s.len() > 1 {
            assert(s.drop_last().last().0 < s.last().0);
        }
        assert forall|x: usize| count_at(r, x) == count_at(s, x) + (if x == len { c } else { 0 }) by {
            assert(count_at(r, x) == count_at(r.drop_last(), x) + (if r.last().0 == x { r.last().1 } else { 0 }));
            assert(count_at(s, x) == count_at(s.drop_last(), x) + (if s.last().0 == x { s.last().1 } else { 0 }));
        }
    }
}

/// Compaction sorts the pairs strictly by length and keeps, for every
/// length, the total count recorded for it.
pub proof fn lemma_compact(s: Counts)
    ensures
        strictly_sorted(compact(s)),
        forall|x: usize| count_at(compact(s), x) == count_at(s, x),
    decreases s.len(),
{
    if s.len() > 0 {
        lemma_compact(s.drop_last());
        lemma_insert_sorted(compact(s.drop_last()), s.last().0, s.last().1);
        assert forall|x: usize| count_at(compact(s), x) == count_at(s, x) by {
            assert(count_at(s, x) == count_at(s.drop_last(), x) + (if s.last().0 == x { s.last().1 } else { 0 }));
        }
    }
}

/// Adds `count` strings of length `len` to the sorted pairs `items`.
fn insert_item(items: &mut Vec<(usize, Natural)>, len: usize, count: Natural)
    ensures
        counts_of(final(items)@) == insert_count(counts_of(old(items)@), len, count@),
{
    let ghost s = counts_of(items@);
    let mut i = items.len();
    assert(s.take(i as int) =~= s);
    assert(s.skip(i as int) =~= Seq::<(usize, nat)>::empty());
    while i > 0 && items[i - 1].0 > len
        invariant
            i <= items.len(),
            items@ == old(items)@,
            s == counts_of(items@),
            insert_count(s, len, count@) == insert_count(s.take(i as int), len, count@) + s.skip(i as int),
            forall|j: int| i <= j < s.len() ==> s[j].0 > len,
        decreases i,
    {
        let ghost t = s.take(i as int);
        assert(t.drop_last() =~= s.take(i - 1));
        assert(t.last() == s[i - 1]);
        assert(s.skip(i - 1) =~= seq![s[i - 1]] + s.skip(i as int));
        assert(insert_count(t, len, count@) == insert_count(s.take(i - 1), len, count@).push(s[i - 1]));
        assert(insert_count(s.take(i - 1), len, count@).push(s[i - 1]) + s.skip(i as int)
            =~= insert_count(s.take(i - 1), len, count@) + s.skip(i - 1));
        i = i - 1;
    }
    let ghost t = s.take(i as int);
    if i > 0 && items[i - 1].0 == len {
        let sum = items[i - 1].1.add(&count);
        items.set(i - 1, (len, sum));
        assert(t.drop_last() =~= s.take(i - 1));
        assert(counts_of(items@) =~= insert_count(t, len, count@) + s.skip(i as int));
    } else {
        items.insert(i, (len, count));
        if i > 0 {
            assert(t.last() == s[i - 1]);
        } else {
            assert(t =~= Seq::<(usize, nat)>::empty());
        }
        assert(counts_of(items@) =~= insert_count(t, len, count@) + s.skip(i as int));
    }
}

/// Merges the pairs of `scratch` per length, sorted by length.
fn compact_counts(scratch: &Vec<(usize, Natural)>) -> (items: Vec<(usize, Natural)>)
    ensures
        counts_of(items@) == compact(counts_of(scratch@)),
{
    let ghost s = counts_of(scratch@);
    let mut items: Vec<(usize, Natural)> = Vec::new();
    let mut i: usize = 0;
    while i < scratch.len()
        invariant
            i <= scratch.len(),
            s == counts_of(scratch@),
            counts_of(items@) == compact(s.take(i as int)),
        decreases scratch.len() - i,
    {
        assert(s.take(i + 1).drop_last() =~= s.take(i as int));
        let count = scratch[i].1.copy();
        insert_item(&mut items, scratch[i].0, count);
        i = i + 1;
    }
    assert(s.take(i as int) =~= s);
    items
}


/// A distribution over byte lengths: its counts, and whether it stands for
/// infinitely many strings.
pub type SpecDist = (Counts, bool);

/// `a + b`, or `usize::MAX` where the sum does not fit.
pub open spec fn sat_add(a: usize, b: usize) -> usize {
    if a + b > usize::MAX { usize::MAX } else { (a + b) as usize }
}

/// `len` is within the optional upper bound.
pub open spec fn within(len: usize, max_len: Option<usize>) -> bool {
    match max_len {
        Some(max) => len <= max,
        None => true,
    }
}

/// The one empty string.
pub open spec fn unit_counts() -> Counts {
    seq![(0usize, 1nat)]
}

/// The pairs that `(len, c)` forms with each pair of `right`, in order: the
/// lengths added, the counts multiplied, kept where within `max_len`.
pub open spec fn pair_with(len: usize, c: nat, right: Counts, max_len: Option<usize>) -> Counts
    decreases right.len(),
{
    if right.len() == 0 {
        seq![]
    } else {
        let prev = pair_with(len, c, right.drop_last(), max_len);
        let l = sat_add(len, right.last().0);
        if within(l, max_len) { prev.push((l, c * right.last().1)) } else { prev }
    }
}

/// Every pair of `left` with every pair of `right`, `left` outermost.
pub open spec fn pairs(left: Counts, right: Counts, max_len: Option<usize>) -> Counts
    decreases left.len(),
{
    if left.len() == 0 {
        seq![]
    } else {
        pairs(left.drop_last(), right, max_len) + pair_with(left.last().0, left.last().1, right, max_len)
    }
}

/// The counts of the concatenation of `parts`, each step cut at `max_len`.
pub open spec fn concat_counts(parts: Seq<Counts>, max_len: Option<usize>) -> Counts
    decreases parts.len(),
{
    if parts.len() == 0 {
        unit_counts()
    } else {
        compact(pairs(concat_counts(parts.drop_last(), max_len), parts.last(), max_len))
    }
}

/// All pairs of `parts`, in order.
pub open spec fn flatten_counts(parts: Seq<Counts>) -> Counts
    decreases parts.len(),
{
    if parts.len() == 0 {
        seq![]
    } else {
        flatten_counts(parts.drop_last()) + parts.last()
    }
}

/// Some of `parts` is infinite.
pub open spec fn any_infinite(parts: Seq<SpecDist>) -> bool {
    exists|i: int| 0 <= i < parts.len() && parts[i].1
}

/// The counts of each distribution.
pub open spec fn counts_of_dists(parts: Seq<SpecDist>) -> Seq<Counts> {
    parts.map_values(|d: SpecDist| d.0)
}

/// Concatenation of distributions.
pub open spec fn spec_concat(parts: Seq<SpecDist>, max_len: Option<usize>) -> SpecDist {
    (concat_counts(counts_of_dists(parts), max_len), any_infinite(parts))
}

/// Alternation of distributions.
pub open spec fn spec_alternate(parts: Seq<SpecDist>) -> SpecDist {
    (compact(flatten_counts(counts_of_dists(parts))), any_infinite(parts))
}

/// The count at `len` summed over `parts`.
pub open spec fn parts_count_at(parts: Seq<Counts>, len: usize) -> nat
    decreases parts.len(),
{
    if parts.len() == 0 { 0 } else { parts_count_at(parts.drop_last(), len) + count_at(parts.last(), len) }
}

/// The product of the numbers of strings that `parts` count.
pub open spec fn product_counts(parts: Seq<Counts>) -> nat
    decreases parts.len(),
{
    if parts.len() == 0 { 1 } else { product_counts(parts.drop_last()) * sum_counts(parts.last()) }
}

pub(crate) proof fn lemma_count_at_append(a: Counts, b: Counts, x: usize)
    ensures
        count_at(a + b, x) == count_at(a, x) + count_at(b, x),
    decreases b.len(),
{
    if b.len() == 0 {
        assert(a + b =~= a);
    } else {
        lemma_count_at_append(a, b.drop_last(), x);
        assert((a + b).drop_last() =~= a + b.drop_last());
    }
}

proof fn lemma_sum_counts_append(a: Counts, b: Counts)
    ensures
        sum_counts(a + b) == sum_counts(a) + sum_counts(b),
    decreases b.len(),
{
    if b.len() == 0 {
        assert(a + b =~= a);
    } else {
        lemma_sum_counts_append(a, b.drop_last());
        assert((a + b).drop_last() =~= a + b.drop_last());
    }
}

proof fn lemma_insert_sum(s: Counts, len: usize, c: nat)
    ensures
        sum_counts(insert_count(s, len, c)) == sum_counts(s) + c,
    decreases s.len(),
{
    let r = insert_count(s, len, c);
    assert(r.len() > 0) by {
        if s.len() > 0 && s.last().0 > len {
            assert(r == insert_count(s.drop_last(), len, c).push(s.last()));
        }
    }
    assert(sum_counts(r) == sum_counts(r.drop_last()) + r.last().1);
    if s.len() == 0 {
        assert(r.drop_last() =~= Seq::<(usize, nat)>::empty());
    } else {
        assert(sum_counts(s) == sum_counts(s.drop_last()) + s.last().1);
        if s.last().0 == len {
            assert(r.drop_last() =~= s.drop_last());
        } else if s.last().0 < len {
            assert(r.drop_last() =~= s);
        } else {
            lemma_insert_sum(s.drop_last(), len, c);
            assert(r.drop_last() =~= insert_count(s.drop_last(), len, c));
        }
    }
}

proof fn lemma_compact_sum(s: Counts)
    ensures
        sum_counts(compact(s)) == sum_counts(s),
    decreases s.len(),
{
    if s.len() > 0 {
        lemma_compact_sum(s.drop_last());
        lemma_insert_sum(compact(s.drop_last()), s.last().0, s.last().1);
    }
}

proof fn lemma_pair_with_sum(len: usize, c: nat, right: Counts)
    ensures
        sum_counts(pair_with(len, c, right, None)) == c * sum_counts(right),
    decreases right.len(),
{
    if right.len() == 0 {
        assert(c * 0 == 0) by (nonlinear_arith);
    } else {
        let prev = pair_with(len, c, right.drop_last(), None);
        let x = (sat_add(len, right.last().0), c * right.last().1);
        lemma_pair_with_sum(len, c, right.drop_last());
        assert(pair_with(len, c, right, None) == prev.push(x));
        assert(prev.push(x).drop_last() =~= prev);
        assert(sum_counts(prev.push(x)) == sum_counts(prev) + x.1);
        assert(sum_counts(right) == sum_counts(right.drop_last()) + right.last().1);
        vstd::arithmetic::mul::lemma_mul_is_distributive_add(c as int, sum_counts(right.drop_last()) as int, right.last().1 as int);
    }
}

proof fn lemma_pairs_sum(left: Counts, right: Counts)
    ensures
        sum_counts(pairs(left, right, None)) == sum_counts(left) * sum_counts(right),
    decreases left.len(),
{
    if left.len() == 0 {
        assert(0 * sum_counts(right) == 0) by (nonlinear_arith);
    } else {
        lemma_pairs_sum(left.drop_last(), right);
        lemma_pair_with_sum(left.last().0, left.last().1, right);
        lemma_sum_counts_append(pairs(left.drop_last(), right, None), pair_with(left.last().0, left.last().1, right, None));
        assert(sum_counts(left) == sum_counts(left.drop_last()) + left.last().1);
        vstd::arithmetic::mul::lemma_mul_is_distributive_add_other_way(sum_counts(right) as int, sum_counts(left.drop_last()) as int, left.last().1 as int);
    }
}

proof fn lemma_concat_counts_sum(parts: Seq<Counts>)
    ensures
        sum_counts(concat_counts(parts, None)) == product_counts(parts),
    decreases parts.len(),
{
    if parts.len() == 0 {
        assert(unit_counts().drop_last() =~= Seq::<(usize, nat)>::empty());
        assert(sum_counts(unit_counts()) == sum_counts(unit_counts().drop_last()) + 1);
    } else {
        let prev = concat_counts(parts.drop_last(), None);
        lemma_concat_counts_sum(parts.drop_last());
        lemma_pairs_sum(prev, parts.last());
        lemma_compact_sum(pairs(prev, parts.last(), None));
        assert(concat_counts(parts, None) == compact(pairs(prev, parts.last(), None)));
    }
}

proof fn lemma_flatten_count_at(parts: Seq<Counts>, x: usize)
    ensures
        count_at(flatten_counts(parts), x) == parts_count_at(parts, x),
    decreases parts.len(),
{
    if parts.len() > 0 {
        lemma_flatten_count_at(parts.drop_last(), x);
        lemma_count_at_append(flatten_counts(parts.drop_last()), parts.last(), x);
    }
}

/// Alternation counts, at every length, the strings of that length that its
/// parts count, summed over the parts.
pub proof fn law_alternation_counts(parts: Seq<SpecDist>, len: usize)
    ensures
        count_at(spec_alternate(parts).0, len) == parts_count_at(counts_of_dists(parts), len),
{
    lemma_compact(flatten_counts(counts_of_dists(parts)));
    lemma_flatten_count_at(counts_of_dists(parts), len);
}

/// Every length in `s` is at most `m`.
pub open spec fn lengths_at_most(s: Counts, m: nat) -> bool {
    forall|i: int| 0 <= i < s.len() ==> (#[trigger] s[i]).0 <= m
}

proof fn lemma_insert_bytes(s: Counts, len: usize, c: nat, m: nat)
    ensures
        sum_bytes(insert_count(s, len, c)) == sum_bytes(s) + c * (len as nat),
        lengths_at_most(s, m) && len <= m ==> lengths_at_most(insert_count(s, len, c), m),
    decreases s.len(),
{
    let r = insert_count(s, len, c);
    assert(r.len() > 0) by {
        if s.len() > 0 && s.last().0 > len {
            assert(r == insert_count(s.drop_last(), len, c).push(s.last()));
        }
    }
    assert(sum_bytes(r) == sum_bytes(r.drop_last()) + r.last().1 * (r.last().0 as nat));
    if s.len() == 0 {
        assert(r.drop_last() =~= Seq::<(usize, nat)>::empty());
    } else {
        assert(sum_bytes(s) == sum_bytes(s.drop_last()) + s.last().1 * (s.last().0 as nat));
        if s.last().0 == len {
            assert(r.drop_last() =~= s.drop_last());
            assert((s.last().1 + c) * (len as nat) == s.last().1 * (len as nat) + c * (len as nat)) by (nonlinear_arith);
            if lengths_at_most(s, m) && len <= m {
                assert forall|i: int| 0 <= i < r.len() implies (#[trigger] r[i]).0 <= m by {
                    if i < r.len() - 1 { assert(r[i] == s[i]); }
                }
            }
        } else if s.last().0 < len {
            assert(r.drop_last() =~= s);
            if lengths_at_most(s, m) && len <= m {
                assert forall|i: int| 0 <= i < r.len() implies (#[trigger] r[i]).0 <= m by {
                    if i < r.len() - 1 { assert(r[i] == s[i]); }
                }
            }
        } else {
            let p = insert_count(s.drop_last(), len, c);
            lemma_insert_bytes(s.drop_last(), len, c, m);
            assert(r.drop_last() =~= p);
            if lengths_at_most(s, m) && len <= m {
                assert(lengths_at_most(s.drop_last(), m)) by {
                    assert forall|i: int| 0 <= i < s.drop_last().len() implies (#[trigger] s.drop_last()[i]).0 <= m by {
                        assert(s.drop_last()[i] == s[i]);
                    }
                }
                assert forall|i: int| 0 <= i < r.len() implies (#[trigger] r[i]).0 <= m by {
                    if i < r.len() - 1 { assert(r[i] == p[i]); } else { assert(r[i] == s.last()); }
                }
            }
        }
    }
}

proof fn lemma_compact_bytes(s: Counts, m: nat)
    ensures
        sum_bytes(compact(s)) == sum_bytes(s),
        lengths_at_most(s, m) ==> lengths_at_most(compact(s), m),
    decreases s.len(),
{
    if s.len() > 0 {
        lemma_compact_bytes(s.drop_last(), m);
        lemma_insert_bytes(compact(s.drop_last()), s.last().0, s.last().1, m);
        if lengths_at_most(s, m) {
            assert(lengths_at_most(s.drop_last(), m)) by {
                assert forall|i: int| 0 <= i < s.drop_last().len() implies (#[trigger] s.drop_last()[i]).0 <= m by {
                    assert(s.drop_last()[i] == s[i]);
                }
            }
            assert(s.last() == s[s.len() - 1]);
        }
    }
}

proof fn lemma_pair_with_bytes(len: usize, c: nat, right: Counts, mr: nat)
    requires
        lengths_at_most(right, mr),
        len + mr <= usize::MAX,
    ensures
        sum_bytes(pair_with(len, c, right, None)) == c * (len as nat) * sum_counts(right) + c * sum_bytes(right),
        sum_counts(pair_with(len, c, right, None)) == c * sum_counts(right),
        lengths_at_most(pair_with(len, c, right, None), len as nat + mr),
    decreases right.len(),
{
    if right.len() == 0 {
        assert(c * (len as nat) * 0 + c * 0 == 0) by (nonlinear_arith);
    } else {
        let rd = right.drop_last();
        let prev = pair_with(len, c, rd, None);
        let (l, n) = right.last();
        assert(right.last() == right[right.len() - 1]);
        assert(l <= mr);
        let x = ((len + l) as usize, c * n);
        assert(sat_add(len, l) == (len + l) as usize);
        assert(lengths_at_most(rd, mr)) by {
            assert forall|i: int| 0 <= i < rd.len() implies (#[trigger] rd[i]).0 <= mr by {
                assert(rd[i] == right[i]);
            }
        }
        lemma_pair_with_bytes(len, c, rd, mr);
        assert(pair_with(len, c, right, None) == prev.push(x));
        assert(prev.push(x).drop_last() =~= prev);
        assert(sum_bytes(prev.push(x)) == sum_bytes(prev) + x.1 * (x.0 as nat));
        assert(sum_counts(prev.push(x)) == sum_counts(prev) + x.1);
        assert(sum_bytes(right) == sum_bytes(rd) + n * (l as nat));
        assert(sum_counts(right) == sum_counts(rd) + n);
        let sc = sum_counts(rd);
        let sb = sum_bytes(rd);
        assert((c * n) * ((len + l) as nat) + (c * (len as nat) * sc + c * sb)
            == c * (len as nat) * (sc + n) + c * (sb + n * (l as nat))) by (nonlinear_arith);
        assert(c * sc + c * n == c * (sc + n)) by (nonlinear_arith);
        assert forall|i: int| 0 <= i < prev.push(x).len() implies (#[trigger] prev.push(x)[i]).0 <= len as nat + mr by {
            if i < prev.len() { assert(prev.push(x)[i] == prev[i]); }
        }
    }
}

proof fn lemma_pairs_bytes(left: Counts, right: Counts, ml: nat, mr: nat)
    requires
        lengths_at_most(left, ml),
        lengths_at_most(right, mr),
        ml + mr <= usize::MAX,
    ensures
        sum_bytes(pairs(left, right, None)) == sum_bytes(left) * sum_counts(right) + sum_counts(left) * sum_bytes(right),
        lengths_at_most(pairs(left, right, None), ml + mr),
    decreases left.len(),
{
    if left.len() == 0 {
        assert(0 * sum_counts(right) + 0 * sum_bytes(right) == 0) by (nonlinear_arith);
    } else {
        let ld = left.drop_last();
        let (l, c) = left.last();
        assert(left.last() == left[left.len() - 1]);
        assert(lengths_at_most(ld, ml)) by {
            assert forall|i: int| 0 <= i < ld.len() implies (#[trigger] ld[i]).0 <= ml by {
                assert(ld[i] == left[i]);
            }
        }
        lemma_pairs_bytes(ld, right, ml, mr);
        lemma_pair_with_bytes(l, c, right, mr);
        let a = pairs(ld, right, None);
        let b = pair_with(l, c, right, None);
        lemma_sum_bytes_append(a, b);
        assert(sum_bytes(left) == sum_bytes(ld) + c * (l as nat));
        assert(sum_counts(left) == sum_counts(ld) + c);
        let cr = sum_counts(right);
        let br = sum_bytes(right);
        let bl = sum_bytes(ld);
        let cl = sum_counts(ld);
        assert(bl * cr + cl * br + (c * (l as nat) * cr + c * br)
            == (bl + c * (l as nat)) * cr + (cl + c) * br) by (nonlinear_arith);
        assert forall|i: int| 0 <= i < (a + b).len() implies (#[trigger] (a + b)[i]).0 <= ml + mr by {
            if i < a.len() { assert((a + b)[i] == a[i]); } else { assert((a + b)[i] == b[i - a.len()]); }
        }
    }
}

proof fn lemma_sum_bytes_append(a: Counts, b: Counts)
    ensures
        sum_bytes(a + b) == sum_bytes(a) + sum_bytes(b),
    decreases b.len(),
{
    if b.len() == 0 {
        assert(a + b =~= a);
    } else {
        lemma_sum_bytes_append(a, b.drop_last());
        assert((a + b).drop_last() =~= a + b.drop_last());
    }
}

/// Without a maximum length, and where no length of the two parts together
/// exceeds `usize::MAX`, the bytes of a concatenation are the bytes of the
/// first part times the count of the second plus the count of the first
/// times the bytes of the second.
pub proof fn law_concatenation_bytes(a: SpecDist, b: SpecDist, ma: nat, mb: nat)
    requires
        lengths_at_most(a.0, ma),
        lengths_at_most(b.0, mb),
        ma + mb <= usize::MAX,
    ensures
        sum_bytes(spec_concat(seq![a, b], None).0)
            == sum_bytes(a.0) * sum_counts(b.0) + sum_counts(a.0) * sum_bytes(b.0),
{
    let cs = seq![a.0, b.0];
    assert(counts_of_dists(seq![a, b]) =~= cs);
    assert(cs.drop_last() =~= seq![a.0]);
    assert(cs.last() == b.0);
    assert(seq![a.0].drop_last() =~= Seq::<Counts>::empty());
    assert(seq![a.0].last() == a.0);
    let u = unit_counts();
    assert(concat_counts(Seq::<Counts>::empty(), None) == u);
    assert(lengths_at_most(u, 0));
    let p1 = pairs(u, a.0, None);
    lemma_pairs_bytes(u, a.0, 0, ma);
    lemma_pairs_sum(u, a.0);
    assert(u.drop_last() =~= Seq::<(usize, nat)>::empty());
    assert(u.last() == (0usize, 1nat));
    assert(sum_counts(u) == sum_counts(u.drop_last()) + u.last().1);
    assert(sum_bytes(u) == sum_bytes(u.drop_last()) + u.last().1 * (u.last().0 as nat));
    assert(sum_counts(u) == 1);
    assert(sum_bytes(u) == 0);
    assert(0 * sum_counts(a.0) + 1 * sum_bytes(a.0) == sum_bytes(a.0)) by (nonlinear_arith);
    assert(1 * sum_counts(a.0) == sum_counts(a.0)) by (nonlinear_arith);
    let ca = compact(p1);
    assert(concat_counts(seq![a.0], None) == ca);
    lemma_compact_bytes(p1, ma);
    lemma_compact_sum(p1);
    let p2 = pairs(ca, b.0, None);
    lemma_pairs_bytes(ca, b.0, ma, mb);
    lemma_compact_bytes(p2, ma + mb);
    assert(concat_counts(cs, None) == compact(p2));
}

/// The counts of `k` pieces of the part `d` in a row, each added by
/// concatenation: none is the one empty string.
pub open spec fn pieces(d: SpecDist, k: nat, max_len: Option<usize>) -> Counts
    decreases k,
{
    if k == 0 {
        spec_concat(seq![], max_len).0
    } else {
        spec_concat(seq![(pieces(d, (k - 1) as nat, max_len), false), d], max_len).0
    }
}

/// The strings of length `l` with `k` pieces of `d`, summed over `k` from
/// `min` below `n`.
pub open spec fn pieces_sum(d: SpecDist, min: nat, n: nat, max_len: Option<usize>, l: usize) -> nat
    decreases n,
{
    if n == 0 {
        0
    } else {
        pieces_sum(d, min, (n - 1) as nat, max_len, l)
            + if n - 1 >= min { count_at(pieces(d, (n - 1) as nat, max_len), l) } else { 0 }
    }
}

proof fn lemma_pieces_power(d: SpecDist, k: nat, max_len: Option<usize>)
    ensures
        pieces(d, k, max_len) == power(d.0, k, max_len),
    decreases k,
{
    if k == 0 {
        assert(counts_of_dists(seq![]) =~= Seq::<Counts>::empty());
    } else {
        lemma_pieces_power(d, (k - 1) as nat, max_len);
        let p = pieces(d, (k - 1) as nat, max_len);
        assert(counts_of_dists(seq![(p, false), d]) =~= seq![p, d.0]);
    }
}

proof fn lemma_repetitions_sum(d: SpecDist, min: nat, n: nat, max_len: Option<usize>, l: usize)
    ensures
        count_at(repetitions(d.0, min, n, max_len), l) == pieces_sum(d, min, n, max_len, l),
    decreases n,
{
    if n > 0 {
        let k = (n - 1) as nat;
        lemma_repetitions_sum(d, min, k, max_len, l);
        lemma_pieces_power(d, k, max_len);
        let tail: Counts = if k >= min { power(d.0, k, max_len) } else { seq![] };
        lemma_count_at_append(repetitions(d.0, min, k, max_len), tail, l);
        assert(count_at(Seq::<(usize, nat)>::empty(), l) == 0);
    }
}

proof fn lemma_pairs_empty_right(left: Counts, max_len: Option<usize>)
    ensures
        pairs(left, seq![], max_len).len() == 0,
    decreases left.len(),
{
    if left.len() > 0 {
        lemma_pairs_empty_right(left.drop_last(), max_len);
        assert(pair_with(left.last().0, left.last().1, seq![], max_len).len() == 0);
    }
}

proof fn lemma_pieces_of_nothing(d: SpecDist, k: nat, max_len: Option<usize>, l: usize)
    requires
        d.0.len() == 0,
        k > 0,
    ensures
        count_at(pieces(d, k, max_len), l) == 0,
{
    lemma_pieces_power(d, k, max_len);
    let prev = power(d.0, (k - 1) as nat, max_len);
    let parts = seq![prev, d.0];
    assert(parts.drop_last() =~= seq![prev]);
    lemma_pairs_empty_right(concat_counts(seq![prev], max_len), max_len);
    assert(parts.last() == d.0);
    assert(d.0 =~= Seq::<(usize, nat)>::empty());
    assert(compact(pairs(concat_counts(seq![prev], max_len), d.0, max_len)).len() == 0);
}

proof fn lemma_count_unit(l: usize)
    ensures
        count_at(unit_counts(), l) == if l == 0 { 1nat } else { 0nat },
        count_at(Seq::<(usize, nat)>::empty(), l) == 0,
{
    let u = unit_counts();
    assert(u.drop_last() =~= Seq::<(usize, nat)>::empty());
    assert(u.last() == (0usize, 1nat));
    assert(count_at(u, l) == count_at(u.drop_last(), l) + if u.last().0 == l { u.last().1 } else { 0 });
}

proof fn lemma_pieces_sum_of_nothing(d: SpecDist, min: nat, n: nat, max_len: Option<usize>, l: usize)
    requires
        d.0.len() == 0,
    ensures
        pieces_sum(d, min, n, max_len, l) == if n > 0 && min == 0 && l == 0 { 1nat } else { 0nat },
    decreases n,
{
    if n > 0 {
        lemma_pieces_sum_of_nothing(d, min, (n - 1) as nat, max_len, l);
        if n - 1 > 0 {
            lemma_pieces_of_nothing(d, (n - 1) as nat, max_len, l);
        } else {
            assert(counts_of_dists(seq![]) =~= Seq::<Counts>::empty());
            assert(pieces(d, 0, max_len) == unit_counts());
            lemma_count_unit(l);
        }
    }
}

/// A repetition of a finite part from `min` to `most` times counts, at every
/// length and whatever the maximum length, the strings of `k` pieces of the
/// part summed over every `k` from `min` to `most`; so a part repeated from
/// zero times counts the empty string once.
pub proof fn law_repetition_pieces(min: u32, most: u32, sub: Box<Node>, max_len: Option<usize>, l: usize)
    requires
        !spec_dist(*sub, max_len).1,
    ensures
        count_at(spec_dist(Node::Repetition { min, max: Some(most), sub }, max_len).0, l)
            == pieces_sum(spec_dist(*sub, max_len), min as nat, most as nat + 1, max_len, l),
        !spec_dist(Node::Repetition { min, max: Some(most), sub }, max_len).1,
{
    let d = spec_dist(*sub, max_len);
    let r = spec_dist(Node::Repetition { min, max: Some(most), sub }, max_len);
    assert(r == spec_repeat(d, min, Some(most), max_len));
    if d.0.len() == 0 {
        lemma_pieces_sum_of_nothing(d, min as nat, most as nat + 1, max_len, l);
        lemma_count_unit(l);
    } else {
        let reps = repetitions(d.0, min as nat, most as nat + 1, max_len);
        assert(repetition_bound(d.0, Some(most), max_len) == Some(most as usize));
        assert(r.0 == compact(reps));
        lemma_compact(reps);
        lemma_repetitions_sum(d, min as nat, most as nat + 1, max_len, l);
    }
}

/// Alternation does not depend on the order of two parts: it counts as many
/// strings of each length either way, and is infinite either way or neither.
pub proof fn law_alternation_commutes(a: SpecDist, b: SpecDist, len: usize)
    ensures
        count_at(spec_alternate(seq![a, b]).0, len) == count_at(spec_alternate(seq![b, a]).0, len),
        spec_alternate(seq![a, b]).1 == spec_alternate(seq![b, a]).1,
{
    let ab = seq![a, b];
    let ba = seq![b, a];
    law_alternation_counts(ab, len);
    law_alternation_counts(ba, len);
    let cab = counts_of_dists(ab);
    let cba = counts_of_dists(ba);
    assert(cab =~= seq![a.0, b.0]);
    assert(cba =~= seq![b.0, a.0]);
    assert(cab.drop_last() =~= seq![a.0]);
    assert(cba.drop_last() =~= seq![b.0]);
    assert(seq![a.0].drop_last() =~= Seq::<Counts>::empty());
    assert(seq![b.0].drop_last() =~= Seq::<Counts>::empty());
    assert(parts_count_at(seq![a.0], len) == count_at(a.0, len)) by {
        assert(seq![a.0].last() == a.0);
        assert(parts_count_at(Seq::<Counts>::empty(), len) == 0);
    }
    assert(parts_count_at(seq![b.0], len) == count_at(b.0, len)) by {
        assert(seq![b.0].last() == b.0);
        assert(parts_count_at(Seq::<Counts>::empty(), len) == 0);
    }
    assert(cab.last() == b.0 && cba.last() == a.0);
    assert(parts_count_at(cab, len) == count_at(a.0, len) + count_at(b.0, len));
    assert(parts_count_at(cba, len) == count_at(b.0, len) + count_at(a.0, len));
    assert(any_infinite(ab) == any_infinite(ba)) by {
        if any_infinite(ab) {
            let i = choose|i: int| 0 <= i < ab.len() && ab[i].1;
            assert(ba[1 - i] == ab[i]);
        }
        if any_infinite(ba) {
            let i = choose|i: int| 0 <= i < ba.len() && ba[i].1;
            assert(ab[1 - i] == ba[i]);
        }
    }
}

/// Without a maximum length, a concatenation counts the product of the
/// numbers of strings that its parts count.
pub proof fn law_concatenation_count(parts: Seq<SpecDist>)
    ensures
        sum_counts(spec_concat(parts, None).0) == product_counts(counts_of_dists(parts)),
{
    lemma_concat_counts_sum(counts_of_dists(parts));
}

/// The least positive length in `s`.
pub open spec fn min_positive(s: Counts) -> Option<usize>
    decreases s.len(),
{
    if s.len() == 0 {
        None
    } else {
        let rest = min_positive(s.drop_last());
        let l = s.last().0;
        if l == 0 {
            rest
        } else {
            match rest {
                Some(m) => Some(if l < m { l } else { m }),
                None => Some(l),
            }
        }
    }
}

pub proof fn lemma_min_positive(s: Counts)
    ensures
        min_positive(s) matches Some(m) ==> m > 0,
    decreases s.len(),
{
    if s.len() > 0 {
        lemma_min_positive(s.drop_last());
    }
}

/// The counts of `k` repetitions of `sub`, each step cut at `max_len`.
pub open spec fn power(sub: Counts, k: nat, max_len: Option<usize>) -> Counts
    decreases k,
{
    if k == 0 {
        unit_counts()
    } else {
        concat_counts(seq![power(sub, (k - 1) as nat, max_len), sub], max_len)
    }
}

/// The pairs of `k` repetitions of `sub` for each `k` below `upto` from `min`
/// on, in order of `k`.
pub open spec fn repetitions(sub: Counts, min: nat, upto: nat, max_len: Option<usize>) -> Counts
    decreases upto,
{
    if upto == 0 {
        seq![]
    } else {
        let k = (upto - 1) as nat;
        repetitions(sub, min, k, max_len) + (if k >= min { power(sub, k, max_len) } else { seq![] })
    }
}

/// How many repetitions to count: the upper bound, or where there is none,
/// as many as the shortest non-empty string of `sub` fits into `max_len`
/// (`None` where that is unbounded too).
pub open spec fn repetition_bound(sub: Counts, max: Option<u32>, max_len: Option<usize>) -> Option<usize> {
    match max {
        Some(n) => Some(n as usize),
        None => match (min_positive(sub), max_len) {
            (Some(m), Some(limit)) => Some(limit / m),
            _ => None,
        },
    }
}

/// Repetition of a distribution from `min` to `max` times. An infinite
/// distribution stays infinite unless it is repeated at most zero times.
pub open spec fn spec_repeat(sub: SpecDist, min: u32, max: Option<u32>, max_len: Option<usize>) -> SpecDist {
    if sub.1 && max != Some(0u32) {
        (seq![], true)
    } else if sub.0.len() == 0 {
        if min == 0 { (unit_counts(), false) } else { (seq![], false) }
    } else {
        match repetition_bound(sub.0, max, max_len) {
            None => (seq![], true),
            Some(r) => (compact(repetitions(sub.0, min as nat, r as nat + 1, max_len)), false),
        }
    }
}

/// The pairs whose length lies within `min..=max`, in order.
pub open spec fn filter_counts(s: Counts, min: usize, max: Option<usize>) -> Counts
    decreases s.len(),
{
    if s.len() == 0 {
        seq![]
    } else {
        let rest = filter_counts(s.drop_last(), min, max);
        if s.last().0 >= min && within(s.last().0, max) { rest.push(s.last()) } else { rest }
    }
}

/// A distribution narrowed to the lengths `min..=max`; an infinite one stays
/// infinite only without an upper bound.
pub open spec fn spec_filtered(d: SpecDist, min: usize, max: Option<usize>) -> SpecDist {
    (filter_counts(d.0, min, max), d.1 && max is None)
}

/// The number of strings that `s` counts.
pub open spec fn sum_counts(s: Counts) -> nat
    decreases s.len(),
{
    if s.len() == 0 { 0 } else { sum_counts(s.drop_last()) + s.last().1 }
}

/// The total byte length of the strings that `s` counts.
pub open spec fn sum_bytes(s: Counts) -> nat
    decreases s.len(),
{
    if s.len() == 0 { 0 } else { sum_bytes(s.drop_last()) + s.last().1 * (s.last().0 as nat) }
}

/// Match Count and Corpus Byte Size of a distribution; `None` stands for
/// infinite.
pub open spec fn spec_stats(d: SpecDist) -> (Option<nat>, Option<nat>) {
    if d.1 { (None, None) } else { (Some(sum_counts(d.0)), Some(sum_bytes(d.0))) }
}

proof fn lemma_filter_bounds(s: Counts, min: usize, max: Option<usize>)
    ensures
        min * sum_counts(filter_counts(s, min, max)) <= sum_bytes(filter_counts(s, min, max)),
        max matches Some(m) ==> sum_bytes(filter_counts(s, min, max)) <= m * sum_counts(filter_counts(s, min, max)),
    decreases s.len(),
{
    if s.len() > 0 {
        lemma_filter_bounds(s.drop_last(), min, max);
        let rest = filter_counts(s.drop_last(), min, max);
        let (l, c) = s.last();
        if l >= min && within(l, max) {
            let f = rest.push((l, c));
            assert(f.drop_last() =~= rest);
            let rc = sum_counts(rest);
            let rb = sum_bytes(rest);
            assert(f == filter_counts(s, min, max));
            assert(sum_counts(f) == rc + c);
            assert(sum_bytes(f) == rb + c * (l as nat));
            assert(min * (rc + c) <= rb + c * (l as nat)) by (nonlinear_arith)
                requires
                    min * rc <= rb,
                    min <= l;
            if let Some(m) = max {
                assert(rb + c * (l as nat) <= m * (rc + c)) by (nonlinear_arith)
                    requires
                        rb <= m * rc,
                        l <= m;
            }
        } else {
            assert(filter_counts(s, min, max) == rest);
        }
    } else {
        assert(filter_counts(s, min, max) =~= Seq::<(usize, nat)>::empty());
        assert(min * 0 == 0);
    }
}

/// Length Constraints bound the Corpus Byte Size: it lies between the
/// minimum and the maximum length times the Match Count, and the Corpus is
/// infinite only without a maximum length.
pub proof fn law_byte_size_within_constraints(tree: Node, constraints: LengthConstraints)
    ensures
        ({
            let (count, total) = spec_stats(
                spec_filtered(spec_dist(tree, constraints.max), constraints.min, constraints.max),
            );
            match (count, total) {
                (Some(n), Some(t)) => {
                    &&& constraints.min * n <= t
                    &&& constraints.max matches Some(m) ==> t <= m * n
                },
                (None, None) => constraints.max is None,
                _ => false,
            }
        }),
{
    let d = spec_dist(tree, constraints.max);
    lemma_filter_bounds(d.0, constraints.min, constraints.max);
}

#[derive(Debug)]
struct Dist {
    items: Vec<(usize, Natural)>,
    infinite: bool,
}

impl View for Dist {
    type V = SpecDist;

    closed spec fn view(&self) -> SpecDist {
        (counts_of(self.items@), self.infinite)
    }
}

/// The views of a list of distributions.
spec fn views(parts: Seq<Dist>) -> Seq<SpecDist> {
    parts.map_values(|d: Dist| d@)
}

impl Dist {
    fn empty_string() -> (d: Dist)
        ensures
            d@ == (unit_counts(), false),
    {
        let mut items = Vec::new();
        items.push((0usize, Natural::one()));
        let d = Dist { items, infinite: false };
        assert(d@.0 =~= unit_counts());
        d
    }

    fn none() -> (d: Dist)
        ensures
            d@ == (Seq::<(usize, nat)>::empty(), false),
    {
        let d = Dist { items: Vec::new(), infinite: false };
        assert(d@.0 =~= Seq::<(usize, nat)>::empty());
        d
    }

    fn literal(len: usize) -> (d: Dist)
        ensures
            d@ == (seq![(len, 1nat)], false),
    {
        let mut items = Vec::new();
        items.push((len, Natural::one()));
        let d = Dist { items, infinite: false };
        assert(d@.0 =~= seq![(len, 1nat)]);
        d
    }

    fn copy(&self) -> (d: Dist)
        ensures
            d@ == self@,
    {
        let mut items: Vec<(usize, Natural)> = Vec::new();
        let mut i: usize = 0;
        while i < self.items.len()
            invariant
                i <= self.items.len(),
                counts_of(items@) =~= counts_of(self.items@).take(i as int),
            decreases self.items.len() - i,
        {
            let c = self.items[i].1.copy();
            proof { lemma_counts_push(items@, (self.items@[i as int].0, c)); }
            items.push((self.items[i].0, c));
            i = i + 1;
        }
        assert(counts_of(self.items@).take(i as int) =~= counts_of(self.items@));
        Dist { items, infinite: self.infinite }
    }

    fn alternate(parts: &Vec<Dist>) -> (d: Dist)
        ensures
            d@ == spec_alternate(views(parts@)),
    {
        let ghost cs = counts_of_dists(views(parts@));
        let mut scratch: Vec<(usize, Natural)> = Vec::new();
        let mut infinite = false;
        let mut i: usize = 0;
        while i < parts.len()
            invariant
                i <= parts.len(),
                cs == counts_of_dists(views(parts@)),
                counts_of(scratch@) == flatten_counts(cs.take(i as int)),
                infinite == exists|k: int| 0 <= k < i && views(parts@)[k].1,
            decreases parts.len() - i,
        {
            let part = &parts[i];
            assert(views(parts@)[i as int].1 == part.infinite);
            infinite = infinite || part.infinite;
            let ghost before = counts_of(scratch@);
            let mut j: usize = 0;
            while j < part.items.len()
                invariant
                    j <= part.items.len(),
                    counts_of(scratch@) == before + counts_of(part.items@).take(j as int),
                decreases part.items.len() - j,
            {
                let c = part.items[j].1.copy();
                proof { lemma_counts_push(scratch@, (part.items@[j as int].0, c)); }
                scratch.push((part.items[j].0, c));
                j = j + 1;
                assert(counts_of(scratch@) =~= before + counts_of(part.items@).take(j as int));
            }
            assert(cs.take(i + 1).drop_last() =~= cs.take(i as int));
            assert(cs[i as int] == counts_of(part.items@));
            assert(counts_of(part.items@).take(j as int) =~= counts_of(part.items@));
            i = i + 1;
        }
        assert(cs.take(i as int) =~= cs);
        Dist { items: compact_counts(&scratch), infinite }
    }

    fn concat(parts: &Vec<Dist>, max_len: Option<usize>) -> (d: Dist)
        ensures
            d@ == spec_concat(views(parts@), max_len),
    {
        let ghost cs = counts_of_dists(views(parts@));
        let mut acc = Dist::empty_string();
        let mut infinite = false;
        let mut i: usize = 0;
        while i < parts.len()
            invariant
                i <= parts.len(),
                cs == counts_of_dists(views(parts@)),
                counts_of(acc.items@) == concat_counts(cs.take(i as int), max_len),
                !acc.infinite,
                infinite == exists|k: int| 0 <= k < i && views(parts@)[k].1,
            decreases parts.len() - i,
        {
            let part = &parts[i];
            assert(views(parts@)[i as int].1 == part.infinite);
            infinite = infinite || part.infinite;
            let ghost left = counts_of(acc.items@);
            let ghost right = counts_of(part.items@);
            let mut scratch: Vec<(usize, Natural)> = Vec::new();
            let mut a: usize = 0;
            while a < acc.items.len()
                invariant
                    a <= acc.items.len(),
                    left == counts_of(acc.items@),
                    right == counts_of(part.items@),
                    counts_of(scratch@) == pairs(left.take(a as int), right, max_len),
                decreases acc.items.len() - a,
            {
                let ghost before = counts_of(scratch@);
                let left_len = acc.items[a].0;
                let mut b: usize = 0;
                while b < part.items.len()
                    invariant
                        b <= part.items.len(),
                        a < acc.items.len(),
                        left_len == acc.items@[a as int].0,
                        left == counts_of(acc.items@),
                        right == counts_of(part.items@),
                        counts_of(scratch@) == before + pair_with(left_len, left[a as int].1, right.take(b as int), max_len),
                    decreases part.items.len() - b,
                {
                    let len = left_len.saturating_add(part.items[b].0);
                    let fits = match max_len {
                        Some(max) => len <= max,
                        None => true,
                    };
                    assert(right.take(b + 1).drop_last() =~= right.take(b as int));
                    if fits {
                        let count = acc.items[a].1.mul(&part.items[b].1);
                        proof { lemma_counts_push(scratch@, (len, count)); }
                        scratch.push((len, count));
                    }
                    b = b + 1;
                    assert(counts_of(scratch@) =~= before + pair_with(left_len, left[a as int].1, right.take(b as int), max_len));
                }
                assert(right.take(b as int) =~= right);
                assert(left.take(a + 1).drop_last() =~= left.take(a as int));
                a = a + 1;
            }
            assert(left.take(a as int) =~= left);
            acc.items = compact_counts(&scratch);
            assert(cs.take(i + 1).drop_last() =~= cs.take(i as int));
            assert(cs[i as int] == right);
            i = i + 1;
        }
        assert(cs.take(i as int) =~= cs);
        acc.infinite = acc.infinite || infinite;
        acc
    }

    fn min_positive_len(items: &Vec<(usize, Natural)>) -> (m: Option<usize>)
        ensures
            m == min_positive(counts_of(items@)),
    {
        let ghost s = counts_of(items@);
        let mut best: Option<usize> = None;
        let mut i: usize = 0;
        while i < items.len()
            invariant
                i <= items.len(),
                s == counts_of(items@),
                best == min_positive(s.take(i as int)),
            decreases items.len() - i,
        {
            assert(s.take(i + 1).drop_last() =~= s.take(i as int));
            let len = items[i].0;
            if len > 0 {
                best = match best {
                    Some(m) => Some(if len < m { len } else { m }),
                    None => Some(len),
                };
            }
            i = i + 1;
        }
        assert(s.take(i as int) =~= s);
        best
    }

    fn repeat(sub: &Dist, min: u32, max: Option<u32>, max_len: Option<usize>) -> (d: Dist)
        ensures
            d@ == spec_repeat(sub@, min, max, max_len),
    {
        let at_most_zero = match max {
            Some(n) => n == 0,
            None => false,
        };
        if sub.infinite && !at_most_zero {
            let d = Dist { items: Vec::new(), infinite: true };
            assert(d@.0 =~= Seq::<(usize, nat)>::empty());
            return d;
        }
        if sub.items.len() == 0 {
            return if min == 0 { Dist::empty_string() } else { Dist::none() };
        }
        let ghost sc = sub@.0;
        let min_reps = min as usize;
        proof { lemma_min_positive(sc); }
        let max_reps = match max {
            Some(n) => Some(n as usize),
            None => match (Dist::min_positive_len(&sub.items), max_len) {
                (Some(m), Some(limit)) => Some(limit / m),
                _ => None,
            },
        };
        let max_reps = match max_reps {
            Some(r) => r,
            None => {
                let d = Dist { items: Vec::new(), infinite: true };
                assert(d@.0 =~= Seq::<(usize, nat)>::empty());
                return d;
            },
        };
        let mut scratch: Vec<(usize, Natural)> = Vec::new();
        let mut current = Dist::empty_string();
        let mut reps: usize = 0;
        loop
            invariant_except_break
                reps <= max_reps,
                counts_of(current.items@) == power(sc, reps as nat, max_len),
                counts_of(scratch@) == repetitions(sc, min as nat, reps as nat, max_len),
            invariant
                sc == sub@.0,
                min_reps == min,
            ensures
                counts_of(scratch@) == repetitions(sc, min as nat, max_reps as nat + 1, max_len),
            decreases max_reps - reps,
        {
            let ghost before = counts_of(scratch@);
            if reps >= min_reps {
                let mut j: usize = 0;
                while j < current.items.len()
                    invariant
                        j <= current.items.len(),
                        counts_of(scratch@) == before + counts_of(current.items@).take(j as int),
                    decreases current.items.len() - j,
                {
                    let c = current.items[j].1.copy();
                    proof { lemma_counts_push(scratch@, (current.items@[j as int].0, c)); }
                    scratch.push((current.items[j].0, c));
                    j = j + 1;
                    assert(counts_of(scratch@) =~= before + counts_of(current.items@).take(j as int));
                }
                assert(counts_of(current.items@).take(j as int) =~= counts_of(current.items@));
            } else {
                assert(before + Seq::<(usize, nat)>::empty() =~= before);
            }
            assert(counts_of(scratch@) == repetitions(sc, min as nat, reps as nat + 1, max_len));
            if reps == max_reps {
                break;
            }
            let mut pair: Vec<Dist> = Vec::new();
            pair.push(current);
            pair.push(sub.copy());
            assert(counts_of_dists(views(pair@)) =~= seq![power(sc, reps as nat, max_len), sc]);
            current = Dist::concat(&pair, max_len);
            reps = reps + 1;
        }
        Dist { items: compact_counts(&scratch), infinite: false }
    }

    fn filtered(&self, min: usize, max: Option<usize>) -> (d: Dist)
        ensures
            d@ == spec_filtered(self@, min, max),
    {
        let ghost s = counts_of(self.items@);
        let mut items: Vec<(usize, Natural)> = Vec::new();
        let mut i: usize = 0;
        while i < self.items.len()
            invariant
                i <= self.items.len(),
                s == counts_of(self.items@),
                counts_of(items@) == filter_counts(s.take(i as int), min, max),
            decreases self.items.len() - i,
        {
            assert(s.take(i + 1).drop_last() =~= s.take(i as int));
            let len = self.items[i].0;
            let keep = len >= min && match max {
                Some(m) => len <= m,
                None => true,
            };
            if keep {
                let c = self.items[i].1.copy();
                proof { lemma_counts_push(items@, (len, c)); }
                items.push((len, c));
            }
            i = i + 1;
        }
        assert(s.take(i as int) =~= s);
        Dist { items, infinite: self.infinite && max.is_none() }
    }

    fn stats(&self) -> (st: Stats)
        ensures
            (st.count@, st.total_bytes@) == spec_stats(self@),
    {
        if self.infinite {
            return Stats { count: Amount::Infinite, total_bytes: Amount::Infinite };
        }
        let ghost s = counts_of(self.items@);
        let mut count = Natural::zero();
        let mut total = Natural::zero();
        let mut i: usize = 0;
        while i < self.items.len()
            invariant
                i <= self.items.len(),
                s == counts_of(self.items@),
                count@ == sum_counts(s.take(i as int)),
                total@ == sum_bytes(s.take(i as int)),
            decreases self.items.len() - i,
        {
            assert(s.take(i + 1).drop_last() =~= s.take(i as int));
            let n = &self.items[i].1;
            count = count.add(n);
            let bytes = n.mul(&Natural::from_usize(self.items[i].0));
            total = total.add(&bytes);
            i = i + 1;
        }
        assert(s.take(i as int) =~= s);
        Stats { count: Amount::Finite(count), total_bytes: Amount::Finite(total) }
    }
}

/// A number of strings or bytes: finite, or infinite.
#[derive(Debug)]
pub enum Amount {
    Finite(Natural),
    Infinite,
}

impl View for Amount {
    type V = Option<nat>;

    open spec fn view(&self) -> Option<nat> {
        match self {
            Amount::Finite(n) => Some(n@),
            Amount::Infinite => None,
        }
    }
}

impl Amount {
    /// The number in decimal, or "infinite".
    pub fn display(&self) -> (s: String)
        ensures
            s@ == match self@ {
                Some(n) => decimal(n),
                None => "infinite"@,
            },
    {
        match self {
            Amount::Finite(n) => n.to_decimal(),
            Amount::Infinite => {
                let s = String::from_str("infinite");
                s
            },
        }
    }
}

/// Match Count and Corpus Byte Size.
#[derive(Debug)]
pub struct Stats {
    pub count: Amount,
    pub total_bytes: Amount,
}


/// The UTF-8 byte length of the character with scalar value `c`, or `None`
/// where `c` is no character (a surrogate, or above U+10FFFF).
pub open spec fn scalar_width(c: u32) -> Option<usize> {
    if (0xD800 <= c && c <= 0xDFFF) || c > 0x10FFFF {
        None
    } else if c < 0x80 {
        Some(1)
    } else if c < 0x800 {
        Some(2)
    } else if c < 0x10000 {
        Some(3)
    } else {
        Some(4)
    }
}

/// The widths of the characters from `lo` to `hi`, in order.
pub open spec fn range_widths(lo: u32, hi: int) -> Seq<usize>
    decreases hi - lo + 1,
{
    if hi < lo {
        seq![]
    } else {
        let prev = range_widths(lo, hi - 1);
        match scalar_width(hi as u32) {
            Some(w) => prev.push(w),
            None => prev,
        }
    }
}

/// The widths of the characters of a Unicode class, range by range.
pub open spec fn unicode_widths(ranges: Seq<(char, char)>) -> Seq<usize>
    decreases ranges.len(),
{
    if ranges.len() == 0 {
        seq![]
    } else {
        unicode_widths(ranges.drop_last()) + range_widths(ranges.last().0 as u32, (ranges.last().1 as u32) as int)
    }
}

/// Every byte of a byte class is ASCII.
pub open spec fn byte_class_ok(ranges: Seq<(u8, u8)>) -> bool {
    forall|i: int| 0 <= i < ranges.len() && ranges[i].0 <= ranges[i].1 ==> ranges[i].1 < 0x80
}

/// One width of one byte for each byte of a byte class.
pub open spec fn byte_widths(ranges: Seq<(u8, u8)>) -> Seq<usize>
    decreases ranges.len(),
{
    if ranges.len() == 0 {
        seq![]
    } else {
        let r = ranges.last();
        byte_widths(ranges.drop_last()) + Seq::new(if r.0 <= r.1 { (r.1 - r.0 + 1) as nat } else { 0 }, |i: int| 1usize)
    }
}

/// One string of each width.
pub open spec fn width_counts(widths: Seq<usize>) -> Counts {
    widths.map_values(|w: usize| (w, 1nat))
}

/// The tree holds no byte class with a byte that is not ASCII.
pub open spec fn node_ok(node: Node) -> bool
    decreases node, 0nat,
{
    match node {
        Node::ByteClass(ranges) => byte_class_ok(ranges@),
        Node::Repetition { sub, .. } => node_ok(*sub),
        Node::Capture(sub) => node_ok(*sub),
        Node::Concat(parts) => nodes_ok(parts@, parts@.len()),
        Node::Alternation(parts) => nodes_ok(parts@, parts@.len()),
        _ => true,
    }
}

/// The first `n` of `parts` are all `node_ok`.
pub open spec fn nodes_ok(parts: Seq<Node>, n: nat) -> bool
    decreases parts, n,
{
    if n == 0 || n > parts.len() {
        true
    } else {
        nodes_ok(parts, (n - 1) as nat) && node_ok(parts[n - 1])
    }
}

/// The distribution of byte lengths that a tree describes, every
/// concatenation cut at `max_len`.
pub open spec fn spec_dist(node: Node, max_len: Option<usize>) -> SpecDist
    decreases node, 0nat,
{
    match node {
        Node::Empty => (unit_counts(), false),
        Node::Look(_) => (unit_counts(), false),
        Node::Literal(bytes) => (seq![(bytes@.len() as usize, 1nat)], false),
        Node::UnicodeClass(ranges) => (compact(width_counts(unicode_widths(ranges@))), false),
        Node::ByteClass(ranges) => (compact(width_counts(byte_widths(ranges@))), false),
        Node::Capture(sub) => spec_dist(*sub, max_len),
        Node::Concat(parts) => spec_concat(spec_dists(parts@, parts@.len(), max_len), max_len),
        Node::Alternation(parts) => spec_alternate(spec_dists(parts@, parts@.len(), max_len)),
        Node::Repetition { min, max, sub } => spec_repeat(spec_dist(*sub, max_len), min, max, max_len),
    }
}

/// The distributions of the first `n` of `parts`.
pub open spec fn spec_dists(parts: Seq<Node>, n: nat, max_len: Option<usize>) -> Seq<SpecDist>
    decreases parts, n,
{
    if n == 0 || n > parts.len() {
        seq![]
    } else {
        spec_dists(parts, (n - 1) as nat, max_len).push(spec_dist(parts[n - 1], max_len))
    }
}

/// The width of the character with scalar value `c`: `char::from_u32` then
/// `len_utf8`.
pub(crate) fn scalar_width_of(c: u32) -> (w: Option<usize>)
    ensures
        w == scalar_width(c),
{
    if (0xD800 <= c && c <= 0xDFFF) || c > 0x10FFFF {
        None
    } else if c < 0x80 {
        Some(1)
    } else if c < 0x800 {
        Some(2)
    } else if c < 0x10000 {
        Some(3)
    } else {
        Some(4)
    }
}

fn unicode_class_widths(ranges: &Vec<(char, char)>) -> (widths: Vec<usize>)
    ensures
        widths@ == unicode_widths(ranges@),
{
    let mut widths: Vec<usize> = Vec::new();
    let mut i: usize = 0;
    while i < ranges.len()
        invariant
            i <= ranges.len(),
            widths@ == unicode_widths(ranges@.take(i as int)),
        decreases ranges.len() - i,
    {
        let start = ranges[i].0 as u32;
        let end = ranges[i].1 as u32;
        proof { vstd::utf8::char_is_scalar(ranges@[i as int].1); }
        let ghost before = widths@;
        assert(ranges@.take(i + 1).last() == ranges@[i as int]);
        if start <= end {
            let mut c: u32 = start;
            assert(range_widths(start, start - 1) =~= Seq::<usize>::empty());
            assert(before + Seq::<usize>::empty() =~= before);
            while c <= end
                invariant
                    start <= c <= end + 1,
                    end <= 0x10FFFF,
                    widths@ == before + range_widths(start, c - 1),
                decreases end + 1 - c,
            {
                match scalar_width_of(c) {
                    Some(w) => {
                        widths.push(w);
                        assert(widths@ =~= before + range_widths(start, c as int));
                    },
                    None => {},
                }
                c = c + 1;
            }
        } else {
            assert(range_widths(start, end as int) =~= Seq::<usize>::empty());
            assert(before + Seq::<usize>::empty() =~= before);
        }
        assert(widths@ == before + range_widths(start, end as int));
        assert(ranges@.take(i + 1).drop_last() =~= ranges@.take(i as int));
        assert(start == ranges@.take(i + 1).last().0 as u32);
        assert(end == ranges@.take(i + 1).last().1 as u32);
        assert(widths@ == unicode_widths(ranges@.take(i + 1)));
        i = i + 1;
    }
    assert(ranges@.take(i as int) =~= ranges@);
    widths
}

fn byte_class_widths(ranges: &Vec<(u8, u8)>) -> (res: Result<Vec<usize>, Error>)
    ensures
        res is Ok <==> byte_class_ok(ranges@),
        res matches Ok(widths) ==> widths@ == byte_widths(ranges@),
        res matches Err(e) ==> e == Error::Unsupported(Unsupported::NonUtf8ByteClass),
{
    let mut widths: Vec<usize> = Vec::new();
    let mut i: usize = 0;
    while i < ranges.len()
        invariant
            i <= ranges.len(),
            widths@ == byte_widths(ranges@.take(i as int)),
            byte_class_ok(ranges@.take(i as int)),
        decreases ranges.len() - i,
    {
        assert(ranges@.take(i + 1).drop_last() =~= ranges@.take(i as int));
        let start = ranges[i].0 as u16;
        let end = ranges[i].1 as u16;
        let ghost before = widths@;
        let ghost r = ranges@[i as int];
        if start <= end {
            let mut b: u16 = start;
            assert(before + Seq::new(0, |k: int| 1usize) =~= before);
            while b <= end
                invariant
                    i < ranges.len(),
                    r == ranges@[i as int],
                    start == r.0,
                    end == r.1,
                    start <= b <= end + 1,
                    end <= 0xFF,
                    b <= 0x80 || b == start,
                    widths@ == before + Seq::new((b - start) as nat, |k: int| 1usize),
                decreases end + 1 - b,
            {
                if b >= 0x80 {
                    assert(!byte_class_ok(ranges@)) by {
                        assert(r.0 <= r.1 && r.1 >= 0x80);
                    }
                    return Err(Error::Unsupported(Unsupported::NonUtf8ByteClass));
                }
                widths.push(1);
                b = b + 1;
                assert(widths@ =~= before + Seq::new((b - start) as nat, |k: int| 1usize));
            }
            assert(r.1 < 0x80);
        } else {
            assert(before + Seq::new(0, |k: int| 1usize) =~= before);
        }
        assert(ranges@.take(i + 1).last() == r);
        assert(widths@ == byte_widths(ranges@.take(i + 1)));
        assert(byte_class_ok(ranges@.take(i + 1))) by {
            assert forall|k: int| 0 <= k < i + 1 && #[trigger] ranges@.take(i + 1)[k].0 <= ranges@.take(i + 1)[k].1
                implies ranges@.take(i + 1)[k].1 < 0x80 by {
                if k < i {
                    assert(ranges@.take(i + 1)[k] == ranges@.take(i as int)[k]);
                }
            }
        }
        i = i + 1;
    }
    assert(ranges@.take(i as int) =~= ranges@);
    Ok(widths)
}

impl Dist {
    fn class(widths: &Vec<usize>) -> (d: Dist)
        ensures
            d@ == (compact(width_counts(widths@)), false),
    {
        let mut scratch: Vec<(usize, Natural)> = Vec::new();
        let mut i: usize = 0;
        while i < widths.len()
            invariant
                i <= widths.len(),
                counts_of(scratch@) =~= width_counts(widths@).take(i as int),
            decreases widths.len() - i,
        {
            let one = Natural::one();
            proof { lemma_counts_push(scratch@, (widths@[i as int], one)); }
            scratch.push((widths[i], one));
            i = i + 1;
        }
        assert(width_counts(widths@).take(i as int) =~= width_counts(widths@));
        Dist { items: compact_counts(&scratch), infinite: false }
    }
}

fn distribution(node: &Node, max_len: Option<usize>) -> (res: Result<Dist, Error>)
    ensures
        res is Ok <==> node_ok(*node),
        res matches Ok(d) ==> d@ == spec_dist(*node, max_len),
        res matches Err(e) ==> e == Error::Unsupported(Unsupported::NonUtf8ByteClass),
    decreases node,
{
    match node {
        Node::Empty => Ok(Dist::empty_string()),
        Node::Look(_) => Ok(Dist::empty_string()),
        Node::Literal(bytes) => Ok(Dist::literal(bytes.len())),
        Node::UnicodeClass(ranges) => Ok(Dist::class(&unicode_class_widths(ranges))),
        Node::ByteClass(ranges) => {
            let widths = byte_class_widths(ranges)?;
            Ok(Dist::class(&widths))
        },
        Node::Capture(sub) => distribution(sub, max_len),
        Node::Concat(parts) => {
            let dists = distributions(parts, max_len)?;
            Ok(Dist::concat(&dists, max_len))
        },
        Node::Alternation(parts) => {
            let dists = distributions(parts, max_len)?;
            Ok(Dist::alternate(&dists))
        },
        Node::Repetition { min, max, sub } => {
            let sub_dist = distribution(sub, max_len)?;
            Ok(Dist::repeat(&sub_dist, *min, *max, max_len))
        },
    }
}

fn distributions(parts: &Vec<Node>, max_len: Option<usize>) -> (res: Result<Vec<Dist>, Error>)
    ensures
        res is Ok <==> nodes_ok(parts@, parts@.len()),
        res matches Ok(ds) ==> views(ds@) == spec_dists(parts@, parts@.len(), max_len),
        res matches Err(e) ==> e == Error::Unsupported(Unsupported::NonUtf8ByteClass),
    decreases parts, parts@.len(),
{
    let mut dists: Vec<Dist> = Vec::new();
    let mut i: usize = 0;
    while i < parts.len()
        invariant
            i <= parts.len(),
            nodes_ok(parts@, i as nat),
            views(dists@) == spec_dists(parts@, i as nat, max_len),
        decreases parts.len() - i,
    {
        let d = distribution(&parts[i], max_len);
        match d {
            Ok(d) => {
                dists.push(d);
                assert(views(dists@) =~= spec_dists(parts@, (i + 1) as nat, max_len));
            },
            Err(e) => {
                proof {
                    if nodes_ok(parts@, parts@.len()) {
                        lemma_nodes_ok_prefix(parts@, parts@.len(), (i + 1) as nat);
                    }
                }
                return Err(e);
            },
        }
        i = i + 1;
    }
    Ok(dists)
}

proof fn lemma_nodes_ok_prefix(parts: Seq<Node>, n: nat, k: nat)
    requires
        k <= n <= parts.len(),
        nodes_ok(parts, n),
    ensures
        nodes_ok(parts, k),
    decreases n,
{
    if k < n {
        lemma_nodes_ok_prefix(parts, (n - 1) as nat, k);
    }
}

/// Whether analysis without a maximum length finds the tree's strings
/// unbounded in number.
pub(crate) fn unbounded(tree: &Node) -> (res: Result<bool, Error>)
    ensures
        res is Ok <==> node_ok(*tree),
        res matches Ok(b) ==> b == spec_dist(*tree, None).1,
        res matches Err(e) ==> e == Error::Unsupported(Unsupported::NonUtf8ByteClass),
{
    let d = distribution(tree, None)?;
    Ok(d.infinite)
}

/// Match Count and Corpus Byte Size of the strings that `tree` describes
/// within `constraints`. Assertions are counted as holding, so trees where one
/// might not hold are refused (see `anchors_ok`). A finite count is given
/// only for trees that the
/// uniqueness check accepts, where each string has one derivation; for other
/// trees counting derivations could count a string twice, and the pattern is
/// refused.
pub fn analyze(tree: &Node, constraints: &LengthConstraints) -> (res: Result<Stats, Error>)
    ensures
        res is Ok <==> node_ok(*tree) && anchors_ok(*tree, true, true) && (
            spec_filtered(spec_dist(*tree, constraints.max), constraints.min, constraints.max).1
            || spec_unique(*tree)
        ),
        res matches Ok(st) ==> (st.count@, st.total_bytes@) == spec_stats(
            spec_filtered(spec_dist(*tree, constraints.max), constraints.min, constraints.max),
        ),
        res matches Err(e) ==> e == if !node_ok(*tree) {
            Error::Unsupported(Unsupported::NonUtf8ByteClass)
        } else if !anchors_ok(*tree, true, true) {
            Error::Unsupported(Unsupported::LookAround)
        } else {
            Error::Unsupported(Unsupported::AmbiguousPattern)
        },
{
    let d = distribution(tree, constraints.max)?;
    if !anchors_in_place(tree, true, true) {
        return Err(Error::Unsupported(Unsupported::LookAround));
    }
    let f = d.filtered(constraints.min, constraints.max);
    if !f.infinite && !is_unique(tree) {
        return Err(Error::Unsupported(Unsupported::AmbiguousPattern));
    }
    Ok(f.stats())
}

/// The least positive Byte Length of the strings that `tree` describes,
/// every concatenation cut at `max_len`.
pub fn min_positive_len(tree: &Node, max_len: usize) -> (res: Result<usize, Error>)
    ensures
        res is Ok <==> node_ok(*tree) && min_positive(spec_dist(*tree, Some(max_len)).0) is Some,
        res matches Ok(m) ==> Some(m) == min_positive(spec_dist(*tree, Some(max_len)).0),
        res matches Err(e) ==> e == if node_ok(*tree) {
            Error::Unsupported(Unsupported::UnboundedEmptyRepetition)
        } else {
            Error::Unsupported(Unsupported::NonUtf8ByteClass)
        },
{
    let d = distribution(tree, Some(max_len))?;
    match Dist::min_positive_len(&d.items) {
        Some(m) => Ok(m),
        None => Err(Error::Unsupported(Unsupported::UnboundedEmptyRepetition)),
    }
}

} // verus!
