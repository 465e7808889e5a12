//! The uniqueness check is sound: where it accepts a tree, generation lists
//! each string once, so the Match Count counts Match Strings.
use crate::corpus::GenerationOrder;
use crate::agreement::{all_finite, law_generation_yields_match_count};
use crate::calculate::{
    byte_widths, compact, count_at, lemma_compact, lemma_count_at_append, range_widths, scalar_width, spec_dist, spec_filtered,
    spec_stats, unicode_widths, width_counts,
};
use crate::corpus::LengthConstraints;
use crate::generate::{
    at_least, decode_all, rep_bound, spec_candidates, spec_generate, spec_generate_alternation, spec_generate_concat, byte_strings, combine, fits, join, join_inv, join_one, join_one_inv, range_strings, rep_strings, unicode_strings, Strings,
};
use crate::unique::{
    alt_step, byte_firsts, bytes_disjoint, chars_disjoint, class_fixed, concat_step, lead_byte, no_firsts,
    alt_shape, concat_shape, repeat_shape, spec_shape, spec_unique, unicode_firsts, union_firsts, with_range,
    SpecShape,
};
use crate::syntax::Node;
use vstd::utf8::{encode_scalar, encode_utf8, is_scalar};
use vstd::prelude::*;

verus! {

/// Every string of `l` has length `w`.
pub open spec fn all_len(l: Strings, w: nat) -> bool {
    forall|i: int| 0 <= i < l.len() ==> (#[trigger] l[i]).len() == w
}

/// The empty strings and first bytes of `l` are those that `sh` allows.
pub open spec fn starts_ok(l: Strings, sh: SpecShape) -> bool {
    forall|i: int| 0 <= i < l.len() ==> {
        &&& (#[trigger] l[i]).len() == 0 ==> sh.1
        &&& l[i].len() > 0 ==> sh.2[l[i][0] as int]
    }
}

/// `l` has the properties that the shape `sh` claims.
pub open spec fn shape_holds(l: Strings, sh: SpecShape) -> bool {
    &&& sh.2.len() == 256
    &&& sh.0 matches Some(w) ==> all_len(l, w as nat)
    &&& starts_ok(l, sh)
    &&& sh.3 ==> l.no_duplicates()
}

proof fn lemma_no_dups_append(a: Strings, b: Strings)
    requires
        a.no_duplicates(),
        b.no_duplicates(),
        forall|i: int, j: int| 0 <= i < a.len() && 0 <= j < b.len() ==> a[i] != b[j],
    ensures
        (a + b).no_duplicates(),
{
    let c = a + b;
    assert forall|i: int, j: int| 0 <= i < c.len() && 0 <= j < c.len() && i != j implies c[i] != c[j] by {
        if i < a.len() && j < a.len() {
        } else if i >= a.len() && j >= a.len() {
            assert(c[i] == b[i - a.len()]);
            assert(c[j] == b[j - a.len()]);
        } else if i < a.len() {
            assert(c[j] == b[j - a.len()]);
        } else {
            assert(c[i] == b[i - a.len()]);
        }
    }
}

proof fn lemma_prefix_eq(x1: Seq<u8>, y1: Seq<u8>, x2: Seq<u8>, y2: Seq<u8>)
    requires
        x1 + y1 == x2 + y2,
        x1.len() == x2.len(),
    ensures
        x1 == x2,
        y1 == y2,
{
    assert(x1 =~= (x1 + y1).subrange(0, x1.len() as int));
    assert(x2 =~= (x2 + y2).subrange(0, x2.len() as int));
    assert(y1 =~= (x1 + y1).subrange(x1.len() as int, (x1 + y1).len() as int));
    assert(y2 =~= (x2 + y2).subrange(x2.len() as int, (x2 + y2).len() as int));
}

/// Each string of `join_one(x, ys)` is `x` followed by one of `ys[..n]`.
proof fn lemma_join_one_mem(x: Seq<u8>, ys: Strings, max_len: Option<usize>, k: int)
    requires
        0 <= k < join_one(x, ys, max_len).len(),
    ensures
        exists|j: int| 0 <= j < ys.len() && join_one(x, ys, max_len)[k] == x + ys[j],
    decreases ys.len(),
{
    let prev = join_one(x, ys.drop_last(), max_len);
    if k < prev.len() {
        lemma_join_one_mem(x, ys.drop_last(), max_len, k);
        let j = choose|j: int| 0 <= j < ys.drop_last().len() && prev[k] == x + ys.drop_last()[j];
        assert(join_one(x, ys, max_len)[k] == prev[k]);
        assert(ys.drop_last()[j] == ys[j]);
    } else {
        assert(join_one(x, ys, max_len)[k] == x + ys.last());
    }
}

proof fn lemma_join_one_inv_mem(xs: Strings, y: Seq<u8>, max_len: Option<usize>, k: int)
    requires
        0 <= k < join_one_inv(xs, y, max_len).len(),
    ensures
        exists|i: int| 0 <= i < xs.len() && join_one_inv(xs, y, max_len)[k] == xs[i] + y,
    decreases xs.len(),
{
    let prev = join_one_inv(xs.drop_last(), y, max_len);
    if k < prev.len() {
        lemma_join_one_inv_mem(xs.drop_last(), y, max_len, k);
        let i = choose|i: int| 0 <= i < xs.drop_last().len() && prev[k] == xs.drop_last()[i] + y;
        assert(join_one_inv(xs, y, max_len)[k] == prev[k]);
        assert(xs.drop_last()[i] == xs[i]);
    } else {
        assert(join_one_inv(xs, y, max_len)[k] == xs.last() + y);
    }
}

proof fn lemma_join_mem(xs: Strings, ys: Strings, max_len: Option<usize>, k: int)
    requires
        0 <= k < join(xs, ys, max_len).len(),
    ensures
        exists|i: int, j: int| 0 <= i < xs.len() && 0 <= j < ys.len() && join(xs, ys, max_len)[k] == xs[i] + ys[j],
    decreases xs.len(),
{
    let prev = join(xs.drop_last(), ys, max_len);
    let one = join_one(xs.last(), ys, max_len);
    assert(join(xs, ys, max_len) == prev + one);
    if k < prev.len() {
        lemma_join_mem(xs.drop_last(), ys, max_len, k);
        let (i, j) = choose|i: int, j: int| 0 <= i < xs.drop_last().len() && 0 <= j < ys.len() && prev[k] == xs.drop_last()[i] + ys[j];
        assert(xs.drop_last()[i] == xs[i]);
    } else {
        lemma_join_one_mem(xs.last(), ys, max_len, k - prev.len());
        let j = choose|j: int| 0 <= j < ys.len() && one[k - prev.len()] == xs.last() + ys[j];
        assert(xs.last() == xs[xs.len() - 1]);
    }
}

proof fn lemma_join_inv_mem(xs: Strings, ys: Strings, max_len: Option<usize>, k: int)
    requires
        0 <= k < join_inv(xs, ys, max_len).len(),
    ensures
        exists|i: int, j: int| 0 <= i < xs.len() && 0 <= j < ys.len() && join_inv(xs, ys, max_len)[k] == xs[i] + ys[j],
    decreases ys.len(),
{
    let prev = join_inv(xs, ys.drop_last(), max_len);
    let one = join_one_inv(xs, ys.last(), max_len);
    assert(join_inv(xs, ys, max_len) == prev + one);
    if k < prev.len() {
        lemma_join_inv_mem(xs, ys.drop_last(), max_len, k);
        let (i, j) = choose|i: int, j: int| 0 <= i < xs.len() && 0 <= j < ys.drop_last().len() && prev[k] == xs[i] + ys.drop_last()[j];
        assert(ys.drop_last()[j] == ys[j]);
    } else {
        lemma_join_one_inv_mem(xs, ys.last(), max_len, k - prev.len());
        let i = choose|i: int| 0 <= i < xs.len() && one[k - prev.len()] == xs[i] + ys.last();
        assert(ys.last() == ys[ys.len() - 1]);
    }
}

proof fn lemma_combine_mem(xs: Strings, ys: Strings, max_len: Option<usize>, order: GenerationOrder, k: int)
    requires
        0 <= k < combine(xs, ys, max_len, order).len(),
    ensures
        exists|i: int, j: int| 0 <= i < xs.len() && 0 <= j < ys.len() && combine(xs, ys, max_len, order)[k] == xs[i] + ys[j],
{
    match order {
        GenerationOrder::Default => lemma_join_mem(xs, ys, max_len, k),
        GenerationOrder::Inverted => lemma_join_inv_mem(xs, ys, max_len, k),
    }
}

proof fn lemma_join_one_nodup(x: Seq<u8>, ys: Strings, max_len: Option<usize>)
    requires
        ys.no_duplicates(),
    ensures
        join_one(x, ys, max_len).no_duplicates(),
    decreases ys.len(),
{
    if ys.len() > 0 {
        let prev = join_one(x, ys.drop_last(), max_len);
        assert(ys.drop_last().no_duplicates()) by {
            assert forall|i: int, j: int| 0 <= i < ys.drop_last().len() && 0 <= j < ys.drop_last().len() && i != j
                implies ys.drop_last()[i] != ys.drop_last()[j] by {
                assert(ys.drop_last()[i] == ys[i] && ys.drop_last()[j] == ys[j]);
            }
        }
        lemma_join_one_nodup(x, ys.drop_last(), max_len);
        if fits(x.len() + ys.last().len(), max_len) {
            let e = x + ys.last();
            assert forall|k: int| 0 <= k < prev.len() implies prev[k] != e by {
                lemma_join_one_mem(x, ys.drop_last(), max_len, k);
                let j = choose|j: int| 0 <= j < ys.drop_last().len() && prev[k] == x + ys.drop_last()[j];
                if prev[k] == e {
                    lemma_prefix_eq(x, ys.drop_last()[j], x, ys.last());
                    assert(ys[j] == ys[ys.len() - 1]);
                }
            }
            lemma_no_dups_append(prev, seq![e]);
            assert(prev + seq![e] =~= prev.push(e));
        }
    }
}

proof fn lemma_join_one_inv_nodup(xs: Strings, y: Seq<u8>, max_len: Option<usize>)
    requires
        xs.no_duplicates(),
    ensures
        join_one_inv(xs, y, max_len).no_duplicates(),
    decreases xs.len(),
{
    if xs.len() > 0 {
        let prev = join_one_inv(xs.drop_last(), y, max_len);
        assert(xs.drop_last().no_duplicates()) by {
            assert forall|i: int, j: int| 0 <= i < xs.drop_last().len() && 0 <= j < xs.drop_last().len() && i != j
                implies xs.drop_last()[i] != xs.drop_last()[j] by {
                assert(xs.drop_last()[i] == xs[i] && xs.drop_last()[j] == xs[j]);
            }
        }
        lemma_join_one_inv_nodup(xs.drop_last(), y, max_len);
        if fits(xs.last().len() + y.len(), max_len) {
            let e = xs.last() + y;
            assert forall|k: int| 0 <= k < prev.len() implies prev[k] != e by {
                lemma_join_one_inv_mem(xs.drop_last(), y, max_len, k);
                let i = choose|i: int| 0 <= i < xs.drop_last().len() && prev[k] == xs.drop_last()[i] + y;
                if prev[k] == e {
                    assert((xs.drop_last()[i] + y).len() == e.len());
                    lemma_prefix_eq(xs.drop_last()[i], y, xs.last(), y);
                    assert(xs[i] == xs[xs.len() - 1]);
                }
            }
            lemma_no_dups_append(prev, seq![e]);
            assert(prev + seq![e] =~= prev.push(e));
        }
    }
}

proof fn lemma_drop_last_props(l: Strings, w: nat)
    ensures
        l.no_duplicates() && l.len() > 0 ==> l.drop_last().no_duplicates(),
        all_len(l, w) && l.len() > 0 ==> all_len(l.drop_last(), w),
{
    if l.len() > 0 {
        if l.no_duplicates() {
            assert forall|i: int, j: int| 0 <= i < l.drop_last().len() && 0 <= j < l.drop_last().len() && i != j
                implies l.drop_last()[i] != l.drop_last()[j] by {
                assert(l.drop_last()[i] == l[i] && l.drop_last()[j] == l[j]);
            }
        }
        if all_len(l, w) {
            assert forall|i: int| 0 <= i < l.drop_last().len() implies (#[trigger] l.drop_last()[i]).len() == w by {
                assert(l.drop_last()[i] == l[i]);
            }
        }
    }
}

proof fn lemma_join_nodup(xs: Strings, ys: Strings, max_len: Option<usize>, wx: nat, wy: nat)
    requires
        xs.no_duplicates(),
        ys.no_duplicates(),
        all_len(xs, wx) || all_len(ys, wy),
    ensures
        join(xs, ys, max_len).no_duplicates(),
    decreases xs.len(),
{
    if xs.len() > 0 {
        let x = xs.last();
        let prev = join(xs.drop_last(), ys, max_len);
        let one = join_one(x, ys, max_len);
        lemma_drop_last_props(xs, wx);
        lemma_join_nodup(xs.drop_last(), ys, max_len, wx, wy);
        lemma_join_one_nodup(x, ys, max_len);
        assert forall|a: int, b: int| 0 <= a < prev.len() && 0 <= b < one.len() implies prev[a] != one[b] by {
            lemma_join_mem(xs.drop_last(), ys, max_len, a);
            let (i, j) = choose|i: int, j: int| 0 <= i < xs.drop_last().len() && 0 <= j < ys.len() && prev[a] == xs.drop_last()[i] + ys[j];
            lemma_join_one_mem(x, ys, max_len, b);
            let j2 = choose|j2: int| 0 <= j2 < ys.len() && one[b] == x + ys[j2];
            if prev[a] == one[b] {
                assert(xs.drop_last()[i] == xs[i]);
                assert(x == xs[xs.len() - 1]);
                if all_len(xs, wx) {
                    assert(xs[i].len() == wx && xs[xs.len() - 1].len() == wx);
                } else {
                    assert(ys[j].len() == wy && ys[j2].len() == wy);
                    assert((xs[i] + ys[j]).len() == (x + ys[j2]).len());
                }
                lemma_prefix_eq(xs[i], ys[j], x, ys[j2]);
            }
        }
        lemma_no_dups_append(prev, one);
    }
}

proof fn lemma_join_inv_nodup(xs: Strings, ys: Strings, max_len: Option<usize>, wx: nat, wy: nat)
    requires
        xs.no_duplicates(),
        ys.no_duplicates(),
        all_len(xs, wx) || all_len(ys, wy),
    ensures
        join_inv(xs, ys, max_len).no_duplicates(),
    decreases ys.len(),
{
    if ys.len() > 0 {
        let y = ys.last();
        let prev = join_inv(xs, ys.drop_last(), max_len);
        let one = join_one_inv(xs, y, max_len);
        lemma_drop_last_props(ys, wy);
        lemma_join_inv_nodup(xs, ys.drop_last(), max_len, wx, wy);
        lemma_join_one_inv_nodup(xs, y, max_len);
        assert forall|a: int, b: int| 0 <= a < prev.len() && 0 <= b < one.len() implies prev[a] != one[b] by {
            lemma_join_inv_mem(xs, ys.drop_last(), max_len, a);
            let (i, j) = choose|i: int, j: int| 0 <= i < xs.len() && 0 <= j < ys.drop_last().len() && prev[a] == xs[i] + ys.drop_last()[j];
            lemma_join_one_inv_mem(xs, y, max_len, b);
            let i2 = choose|i2: int| 0 <= i2 < xs.len() && one[b] == xs[i2] + y;
            if prev[a] == one[b] {
                assert(ys.drop_last()[j] == ys[j]);
                assert(y == ys[ys.len() - 1]);
                if all_len(xs, wx) {
                    assert(xs[i].len() == wx && xs[i2].len() == wx);
                } else {
                    assert(ys[j].len() == wy && ys[ys.len() - 1].len() == wy);
                    assert((xs[i] + ys[j]).len() == (xs[i2] + y).len());
                }
                lemma_prefix_eq(xs[i], ys[j], xs[i2], y);
            }
        }
        lemma_no_dups_append(prev, one);
    }
}

/// Concatenation keeps what the shapes claim.
proof fn lemma_combine_shape(xs: Strings, ys: Strings, max_len: Option<usize>, order: GenerationOrder, shx: SpecShape, shy: SpecShape)
    requires
        shape_holds(xs, shx),
        shape_holds(ys, shy),
    ensures
        shape_holds(combine(xs, ys, max_len, order), concat_step(shx, shy)),
{
    let c = combine(xs, ys, max_len, order);
    let sh = concat_step(shx, shy);
    assert(sh.2.len() == 256);
    assert forall|k: int| 0 <= k < c.len() implies {
        &&& (sh.0 matches Some(w) ==> (#[trigger] c[k]).len() == w)
        &&& (c[k].len() == 0 ==> sh.1)
        &&& (c[k].len() > 0 ==> sh.2[c[k][0] as int])
    } by {
        lemma_combine_mem(xs, ys, max_len, order, k);
        let (i, j) = choose|i: int, j: int| 0 <= i < xs.len() && 0 <= j < ys.len() && c[k] == xs[i] + ys[j];
        let x = xs[i];
        let y = ys[j];
        if c[k].len() > 0 {
            if x.len() > 0 {
                assert(c[k][0] == x[0]);
                assert(shx.2[x[0] as int]);
            } else {
                assert(c[k] =~= y);
                assert(shy.2[y[0] as int]);
            }
        }
    }
    if sh.3 {
        let wx: nat = match shx.0 { Some(w) => w as nat, None => 0 };
        let wy: nat = match shy.0 { Some(w) => w as nat, None => 0 };
        match order {
            GenerationOrder::Default => lemma_join_nodup(xs, ys, max_len, wx, wy),
            GenerationOrder::Inverted => lemma_join_inv_nodup(xs, ys, max_len, wx, wy),
        }
    }
}

/// Alternation keeps what the shapes claim.
proof fn lemma_alt_shape(xs: Strings, ys: Strings, shx: SpecShape, shy: SpecShape)
    requires
        shape_holds(xs, shx),
        shape_holds(ys, shy),
    ensures
        shape_holds(xs + ys, alt_step(shx, shy)),
{
    let c = xs + ys;
    let sh = alt_step(shx, shy);
    assert forall|k: int| 0 <= k < c.len() implies {
        &&& (sh.0 matches Some(w) ==> (#[trigger] c[k]).len() == w)
        &&& (c[k].len() == 0 ==> sh.1)
        &&& (c[k].len() > 0 ==> sh.2[c[k][0] as int])
    } by {
        if k < xs.len() {
            assert(c[k] == xs[k]);
        } else {
            assert(c[k] == ys[k - xs.len()]);
        }
    }
    if sh.3 {
        assert forall|i: int, j: int| 0 <= i < xs.len() && 0 <= j < ys.len() implies xs[i] != ys[j] by {
            if xs[i] == ys[j] {
                if xs[i].len() > 0 {
                    assert(shx.2[xs[i][0] as int] && shy.2[ys[j][0] as int]);
                }
            }
        }
        lemma_no_dups_append(xs, ys);
    }
}

/// What repetition keeps of the shape of `sub`, from `d` repetitions on.
proof fn lemma_rep_strings(sub: Strings, sh: SpecShape, min: nat, bound: nat, d: nat, max_len: Option<usize>, order: GenerationOrder)
    requires
        shape_holds(sub, sh),
    ensures
        forall|k: int| 0 <= k < rep_strings(sub, min, bound, d, max_len, order).len() ==> {
            &&& ((#[trigger] rep_strings(sub, min, bound, d, max_len, order)[k]).len() == 0 ==> d >= min || sh.1)
            &&& (rep_strings(sub, min, bound, d, max_len, order)[k].len() > 0 ==> sh.2[rep_strings(sub, min, bound, d, max_len, order)[k][0] as int])
        },
        bound == min && d <= bound ==> (sh.0 matches Some(w) ==> all_len(rep_strings(sub, min, bound, d, max_len, order), ((bound - d) * w) as nat)),
        sh.3 && (sh.0 matches Some(w) && w > 0) ==> rep_strings(sub, min, bound, d, max_len, order).no_duplicates(),
        sh.3 && bound == min && (sh.0 is Some || bound <= 1) ==> rep_strings(sub, min, bound, d, max_len, order).no_duplicates(),
    decreases bound - d,
{
    let r = rep_strings(sub, min, bound, d, max_len, order);
    let head: Strings = if d >= min { seq![seq![]] } else { seq![] };
    if d >= bound {
        assert(r == head);
        if let Some(w) = sh.0 {
            assert(0 * w == 0) by (nonlinear_arith);
            if bound == min && d <= bound {
                assert(d == bound);
                assert forall|k: int| 0 <= k < r.len() implies (#[trigger] r[k]).len() == ((bound - d) * w) as nat by {
                    assert(r[k] == Seq::<u8>::empty());
                }
            }
        }
    } else {
        let rest = rep_strings(sub, min, bound, d + 1, max_len, order);
        lemma_rep_strings(sub, sh, min, bound, d + 1, max_len, order);
        let c = combine(sub, rest, max_len, order);
        assert(r == head + c);
        assert forall|k: int| 0 <= k < c.len() implies {
            &&& ((#[trigger] c[k]).len() == 0 ==> d >= min || sh.1)
            &&& (c[k].len() > 0 ==> sh.2[c[k][0] as int])
            &&& (sh.0 matches Some(w) ==> c[k].len() >= w)
            &&& (bound == min && d <= bound ==> (sh.0 matches Some(w) ==> c[k].len() == (bound - d) * w))
        } by {
            lemma_combine_mem(sub, rest, max_len, order, k);
            let (i, j) = choose|i: int, j: int| 0 <= i < sub.len() && 0 <= j < rest.len() && c[k] == sub[i] + rest[j];
            let x = sub[i];
            let y = rest[j];
            assert(rest[j] == y);
            if c[k].len() > 0 {
                if x.len() > 0 {
                    assert(c[k][0] == x[0]);
                } else {
                    assert(c[k] =~= y);
                }
            }
            if bound == min && d <= bound {
                if let Some(w) = sh.0 {
                    assert(y.len() == (bound - (d + 1)) * w);
                    assert((bound - d) * w == w + (bound - (d + 1)) * w) by (nonlinear_arith)
                        requires d < bound;
                }
            }
        }
        assert forall|k: int| 0 <= k < r.len() implies {
            &&& ((#[trigger] r[k]).len() == 0 ==> d >= min || sh.1)
            &&& (r[k].len() > 0 ==> sh.2[r[k][0] as int])
        } by {
            if k >= head.len() {
                assert(r[k] == c[k - head.len()]);
            }
        }
        if bound == min && d <= bound {
            if let Some(w) = sh.0 {
                assert forall|k: int| 0 <= k < r.len() implies (#[trigger] r[k]).len() == ((bound - d) * w) as nat by {
                    assert(d < min);
                    assert(r[k] == c[k]);
                }
            }
        }
        if sh.3 {
            let wx: nat = match sh.0 { Some(w) => w as nat, None => 0 };
            if (sh.0 matches Some(w) && w > 0) {
                lemma_combine_nodup_fixed_left(sub, rest, max_len, order, wx);
                assert forall|i: int, j: int| 0 <= i < head.len() && 0 <= j < c.len() implies head[i] != c[j] by {
                    assert(head[i].len() == 0);
                    assert(c[j].len() >= wx);
                }
                lemma_no_dups_append(head, c);
            }
            if bound == min && (sh.0 is Some || bound <= 1) {
                assert(head.len() == 0);
                assert(r =~= c);
                if sh.0 is Some {
                    lemma_combine_nodup_fixed_left(sub, rest, max_len, order, wx);
                } else {
                    assert(bound == 1 && d == 0);
                    assert(rest == seq![Seq::<u8>::empty()]);
                    assert(all_len(rest, 0));
                    lemma_combine_nodup(sub, rest, max_len, order, 0, 0);
                }
            }
        }
    }
}

proof fn lemma_combine_nodup(xs: Strings, ys: Strings, max_len: Option<usize>, order: GenerationOrder, wx: nat, wy: nat)
    requires
        xs.no_duplicates(),
        ys.no_duplicates(),
        all_len(xs, wx) || all_len(ys, wy),
    ensures
        combine(xs, ys, max_len, order).no_duplicates(),
{
    match order {
        GenerationOrder::Default => lemma_join_nodup(xs, ys, max_len, wx, wy),
        GenerationOrder::Inverted => lemma_join_inv_nodup(xs, ys, max_len, wx, wy),
    }
}

proof fn lemma_combine_nodup_fixed_left(xs: Strings, ys: Strings, max_len: Option<usize>, order: GenerationOrder, wx: nat)
    requires
        xs.no_duplicates(),
        ys.no_duplicates(),
        all_len(xs, wx),
    ensures
        combine(xs, ys, max_len, order).no_duplicates(),
{
    lemma_combine_nodup(xs, ys, max_len, order, wx, 0);
}

/// The bytes of one byte class.
proof fn lemma_byte_strings(ranges: Seq<(u8, u8)>, max_len: Option<usize>)
    ensures
        all_len(byte_strings(ranges, max_len), 1),
        forall|k: int| 0 <= k < byte_strings(ranges, max_len).len()
            ==> byte_firsts(ranges)[(#[trigger] byte_strings(ranges, max_len)[k])[0] as int],
        byte_firsts(ranges).len() == 256,
        bytes_disjoint(ranges) ==> byte_strings(ranges, max_len).no_duplicates(),
        bytes_disjoint(ranges) && ranges.len() > 0 ==> forall|k: int| 0 <= k < byte_strings(ranges, max_len).len()
            ==> (#[trigger] byte_strings(ranges, max_len)[k])[0] <= ranges.last().1,
    decreases ranges.len(),
{
    if ranges.len() > 0 {
        let rs = ranges.drop_last();
        let r = ranges.last();
        let prev = byte_strings(rs, max_len);
        let block: Strings = if r.0 <= r.1 && fits(1, max_len) {
            Seq::new((r.1 - r.0 + 1) as nat, |i: int| seq![(r.0 + i) as u8])
        } else {
            seq![]
        };
        let l = byte_strings(ranges, max_len);
        lemma_byte_strings(rs, max_len);
        assert(l == prev + block);
        if bytes_disjoint(ranges) {
            assert(bytes_disjoint(rs)) by {
                assert forall|i: int| 0 < i < rs.len() implies rs[i - 1].1 < rs[i].0 by {
                    assert(rs[i - 1] == ranges[i - 1] && rs[i] == ranges[i]);
                }
                assert forall|i: int| 0 <= i < rs.len() implies rs[i].0 <= rs[i].1 by {
                    assert(rs[i] == ranges[i]);
                }
            }
        }
        assert forall|k: int| 0 <= k < l.len() implies {
            &&& (#[trigger] l[k]).len() == 1
            &&& byte_firsts(ranges)[l[k][0] as int]
            &&& (bytes_disjoint(ranges) ==> l[k][0] <= r.1)
            &&& (k >= prev.len() ==> r.0 <= l[k][0])
        } by {
            if k < prev.len() {
                assert(l[k] == prev[k]);
                if bytes_disjoint(ranges) && rs.len() > 0 {
                    assert(ranges[rs.len() - 1] == rs.last());
                    assert(ranges[ranges.len() - 1].0 <= ranges[ranges.len() - 1].1);
                }
            } else {
                assert(l[k] == block[k - prev.len()]);
            }
        }
        if bytes_disjoint(ranges) {
            assert(block.no_duplicates()) by {
                assert forall|i: int, j: int| 0 <= i < block.len() && 0 <= j < block.len() && i != j
                    implies block[i] != block[j] by {
                    assert(block[i][0] == (r.0 + i) as u8);
                    assert(block[j][0] == (r.0 + j) as u8);
                    assert(r.0 + i <= r.1 && r.0 + j <= r.1);
                }
            }
            assert forall|i: int, j: int| 0 <= i < prev.len() && 0 <= j < block.len() implies prev[i] != block[j] by {
                assert(l[i] == prev[i]);
                assert(l[prev.len() + j] == block[j]);
                if rs.len() > 0 {
                    assert(ranges[rs.len() - 1] == rs.last());
                }
            }
            lemma_no_dups_append(prev, block);
        }
    }
}

proof fn lemma_encode_injective(c1: u32, c2: u32)
    requires
        is_scalar(c1),
        is_scalar(c2),
        encode_scalar(c1) == encode_scalar(c2),
    ensures
        c1 == c2,
{
    let ch1 = c1 as char;
    let ch2 = c2 as char;
    assert(ch1 as u32 == c1);
    assert(ch2 as u32 == c2);
    let s1 = seq![ch1];
    let s2 = seq![ch2];
    assert(s1.drop_first() =~= Seq::<char>::empty());
    assert(s2.drop_first() =~= Seq::<char>::empty());
    assert(encode_utf8(Seq::<char>::empty()) =~= Seq::<u8>::empty());
    assert(encode_utf8(s1) == encode_scalar(s1[0] as u32) + encode_utf8(s1.drop_first()));
    assert(encode_utf8(s2) == encode_scalar(s2[0] as u32) + encode_utf8(s2.drop_first()));
    assert(encode_utf8(s1) =~= encode_scalar(c1));
    assert(encode_utf8(s2) =~= encode_scalar(c2));
    vstd::utf8::encode_utf8_decode_utf8(s1);
    vstd::utf8::encode_utf8_decode_utf8(s2);
    assert(s1[0] == s2[0]);
}

proof fn lemma_lead_byte(c: u32)
    requires
        is_scalar(c),
    ensures
        encode_scalar(c).len() > 0,
        encode_scalar(c)[0] as int == lead_byte(c),
        0 <= lead_byte(c) < 256,
        scalar_width(c) == Some(encode_scalar(c).len() as usize),
{
    if c <= 0x7F {
        assert((c & 0x7F) as u8 == c) by (bit_vector)
            requires c <= 0x7F;
    } else if c <= 0x7FF {
        assert((0xC0u8 | ((c >> 6) & 0x1F) as u8) as u32 == 0xC0 + c / 64) by (bit_vector)
            requires 0x80 <= c <= 0x7FF;
    } else if c <= 0xFFFF {
        assert((0xE0u8 | ((c >> 12) & 0x0F) as u8) as u32 == 0xE0 + c / 4096) by (bit_vector)
            requires 0x800 <= c <= 0xFFFF;
    } else {
        assert((0xF0u8 | ((c >> 18) & 0x7) as u8) as u32 == 0xF0 + c / 262144) by (bit_vector)
            requires 0x10000 <= c <= 0x10FFFF;
    }
}

proof fn lemma_lead_mono(a: u32, b: u32)
    requires
        a <= b,
    ensures
        lead_byte(a) <= lead_byte(b),
{
    if a >= 0x80 && b >= 0x80 && a < 0x800 && b < 0x800 {
        vstd::arithmetic::div_mod::lemma_div_is_ordered(a as int, b as int, 64);
    } else if a >= 0x800 && b >= 0x800 && a < 0x10000 && b < 0x10000 {
        vstd::arithmetic::div_mod::lemma_div_is_ordered(a as int, b as int, 4096);
    } else if a >= 0x10000 {
        vstd::arithmetic::div_mod::lemma_div_is_ordered(a as int, b as int, 262144);
    }
}

/// The encoded characters from `lo` to `hi`, where they fit.
proof fn lemma_range_strings(lo: u32, hi: int, max_len: Option<usize>)
    requires
        hi <= u32::MAX,
    ensures
        forall|k: int| 0 <= k < range_strings(lo, hi, max_len).len() ==> exists|c: u32|
            is_scalar(c) && lo <= c <= hi && #[trigger] range_strings(lo, hi, max_len)[k] == encode_scalar(c),
        range_strings(lo, hi, max_len).no_duplicates(),
    decreases hi - lo + 1,
{
    if hi >= lo {
        let prev = range_strings(lo, hi - 1, max_len);
        let l = range_strings(lo, hi, max_len);
        lemma_range_strings(lo, hi - 1, max_len);
        let c = hi as u32;
        if is_scalar(c) && fits(encode_scalar(c).len(), max_len) {
            assert(l == prev.push(encode_scalar(c)));
            assert forall|k: int| 0 <= k < prev.len() implies prev[k] != encode_scalar(c) by {
                let c2 = choose|c2: u32| is_scalar(c2) && lo <= c2 <= hi - 1 && #[trigger] prev[k] == encode_scalar(c2);
                if prev[k] == encode_scalar(c) {
                    lemma_encode_injective(c2, c);
                }
            }
            lemma_no_dups_append(prev, seq![encode_scalar(c)]);
            assert(prev + seq![encode_scalar(c)] =~= prev.push(encode_scalar(c)));
            assert forall|k: int| 0 <= k < l.len() implies exists|c3: u32|
                is_scalar(c3) && lo <= c3 <= hi && #[trigger] l[k] == encode_scalar(c3) by {
                if k < prev.len() {
                    assert(l[k] == prev[k]);
                } else {
                    assert(l[k] == encode_scalar(c));
                }
            }
        } else {
            assert(l == prev);
            assert forall|k: int| 0 <= k < l.len() implies exists|c3: u32|
                is_scalar(c3) && lo <= c3 <= hi && #[trigger] l[k] == encode_scalar(c3) by {
                assert(l[k] == prev[k]);
                let c2 = choose|c2: u32| is_scalar(c2) && lo <= c2 <= hi - 1 && #[trigger] prev[k] == encode_scalar(c2);
            }
        }
    }
}

/// The encoded characters of one Unicode class.
#[verifier::rlimit(80)]
#[verifier::spinoff_prover]
proof fn lemma_unicode_strings(ranges: Seq<(char, char)>, max_len: Option<usize>)
    ensures
        unicode_firsts(ranges).len() == 256,
        forall|k: int| 0 <= k < unicode_strings(ranges, max_len).len() ==> {
            &&& (#[trigger] unicode_strings(ranges, max_len)[k]).len() > 0
            &&& unicode_firsts(ranges)[unicode_strings(ranges, max_len)[k][0] as int]
            &&& (class_fixed(ranges) matches Some(w) ==> unicode_strings(ranges, max_len)[k].len() == w)
            &&& (chars_disjoint(ranges) && ranges.len() > 0 ==> exists|c: u32| is_scalar(c) && c <= ranges.last().1 as u32
                && unicode_strings(ranges, max_len)[k] == encode_scalar(c))
        },
        chars_disjoint(ranges) ==> unicode_strings(ranges, max_len).no_duplicates(),
    decreases ranges.len(),
{
    if ranges.len() > 0 {
        let rs = ranges.drop_last();
        let r = ranges.last();
        let lo = r.0 as u32;
        let hi = r.1 as u32;
        let prev = unicode_strings(rs, max_len);
        let block = range_strings(lo, hi as int, max_len);
        let l = unicode_strings(ranges, max_len);
        lemma_unicode_strings(rs, max_len);
        lemma_range_strings(lo, hi as int, max_len);
        vstd::utf8::char_is_scalar(r.0);
        vstd::utf8::char_is_scalar(r.1);
        assert(l == prev + block);
        if chars_disjoint(ranges) {
            assert(chars_disjoint(rs)) by {
                assert forall|i: int| 0 < i < rs.len() implies (rs[i - 1].1 as u32) < (rs[i].0 as u32) by {
                    assert(rs[i - 1] == ranges[i - 1] && rs[i] == ranges[i]);
                }
                assert forall|i: int| 0 <= i < rs.len() implies (rs[i].0 as u32) <= (rs[i].1 as u32) by {
                    assert(rs[i] == ranges[i]);
                }
            }
        }
        if class_fixed(ranges) is Some && rs.len() > 0 {
            assert(rs[0] == ranges[0]);
            assert forall|i: int| 0 <= i < rs.len() implies
                scalar_width(rs[i].0 as u32) == scalar_width(rs[0].0 as u32)
                && scalar_width(rs[i].1 as u32) == scalar_width(rs[0].0 as u32) by {
                assert(rs[i] == ranges[i]);
            }
            assert(class_fixed(rs) == class_fixed(ranges));
        }
        assert forall|k: int| 0 <= k < l.len() implies {
            &&& (#[trigger] l[k]).len() > 0
            &&& unicode_firsts(ranges)[l[k][0] as int]
            &&& (class_fixed(ranges) matches Some(w) ==> l[k].len() == w)
            &&& (chars_disjoint(ranges) ==> exists|c: u32| is_scalar(c) && c <= hi && l[k] == encode_scalar(c))
            &&& (k >= prev.len() ==> exists|c: u32| is_scalar(c) && lo <= c <= hi && l[k] == encode_scalar(c))
        } by {
            if k < prev.len() {
                assert(l[k] == prev[k]);
                if chars_disjoint(ranges) && rs.len() > 0 {
                    assert(ranges[rs.len() - 1] == rs.last());
                    let c = choose|c: u32| is_scalar(c) && c <= rs.last().1 as u32 && prev[k] == encode_scalar(c);
                    assert(c <= hi);
                }
            } else {
                assert(l[k] == block[k - prev.len()]);
                let c = choose|c: u32| is_scalar(c) && lo <= c <= hi && #[trigger] block[k - prev.len()] == encode_scalar(c);
                lemma_lead_byte(c);
                lemma_lead_mono(lo, c);
                lemma_lead_mono(c, hi);
                assert(ranges[ranges.len() - 1] == r);
                if let Some(w) = class_fixed(ranges) {
                    assert(scalar_width(lo) == Some(w) && scalar_width(hi) == Some(w));
                }
            }
        }
        if chars_disjoint(ranges) {
            assert forall|i: int, j: int| 0 <= i < prev.len() && 0 <= j < block.len() implies prev[i] != block[j] by {
                assert(l[i] == prev[i]);
                assert(l[prev.len() + j] == block[j]);
                if rs.len() > 0 {
                    assert(ranges[rs.len() - 1] == rs.last());
                    let c1 = choose|c: u32| is_scalar(c) && c <= rs.last().1 as u32 && prev[i] == encode_scalar(c);
                    let c2 = choose|c: u32| is_scalar(c) && lo <= c <= hi && #[trigger] block[j] == encode_scalar(c);
                    if prev[i] == block[j] {
                        lemma_encode_injective(c1, c2);
                    }
                }
            }
            lemma_no_dups_append(prev, block);
        }
    }
}

/// The strings that generation lists for a tree have the properties that
/// the tree's shape claims.
proof fn lemma_shape(node: Node, max_len: Option<usize>, order: GenerationOrder)
    requires
        spec_generate(node, max_len, order) is Ok,
    ensures
        shape_holds(spec_generate(node, max_len, order)->Ok_0, spec_shape(node)),
    decreases node, 0nat,
{
    let l = spec_generate(node, max_len, order)->Ok_0;
    let sh = spec_shape(node);
    match node {
        Node::Empty => {
            assert(l[0].len() == 0);
            assert(all_len(l, 0));
        },
        Node::Look(_) => {
            assert(l[0].len() == 0);
            assert(all_len(l, 0));
        },
        Node::Literal(b) => {
            assert(b@.len() == b.len());
            if l.len() > 0 {
                assert(l[0] == b@);
            }
            assert(all_len(l, b@.len()));
        },
        Node::UnicodeClass(r) => {
            lemma_unicode_strings(r@, max_len);
            assert(shape_holds(l, sh));
        },
        Node::ByteClass(r) => {
            lemma_byte_strings(r@, max_len);
            assert(shape_holds(l, sh));
        },
        Node::Capture(sub) => {
            lemma_shape(*sub, max_len, order);
        },
        Node::Concat(parts) => {
            lemma_shape_concat(parts@, parts@.len(), max_len, order);
        },
        Node::Alternation(parts) => {
            lemma_shape_alt(parts@, parts@.len(), max_len, order);
        },
        Node::Repetition { min, max, sub } => {
            let s = spec_generate(*sub, max_len, order)->Ok_0;
            let ssh = spec_shape(*sub);
            let bound = rep_bound(*sub, min, max, max_len)->Ok_0;
            lemma_shape(*sub, max_len, order);
            lemma_rep_strings(s, ssh, min as nat, bound, 0, max_len, order);
            assert(l == rep_strings(s, min as nat, bound, 0, max_len, order));
            if max == Some(0u32) {
                assert(bound == 0);
                assert(l.len() <= 1);
                assert forall|k: int| 0 <= k < l.len() implies (#[trigger] l[k]).len() == 0 by {
                    assert(l[k] == Seq::<u8>::empty());
                }
                assert(no_firsts().len() == 256);
            } else {
                if max == Some(min) {
                    assert(bound == min as nat);
                    if let Some(w) = ssh.0 {
                        assert((bound - 0) * w == min * w);
                    }
                }
            }
            assert(shape_holds(l, sh));
        },
    }
}

proof fn lemma_shape_concat(parts: Seq<Node>, n: nat, max_len: Option<usize>, order: GenerationOrder)
    requires
        spec_generate_concat(parts, n, max_len, order) is Ok,
    ensures
        shape_holds(spec_generate_concat(parts, n, max_len, order)->Ok_0, concat_shape(parts, n)),
    decreases parts, n,
{
    if n == 0 || n > parts.len() {
        let l = spec_generate_concat(parts, n, max_len, order)->Ok_0;
        assert(l[0].len() == 0);
        assert(no_firsts().len() == 256);
    } else {
        lemma_shape_concat(parts, (n - 1) as nat, max_len, order);
        lemma_shape(parts[n - 1], max_len, order);
        lemma_combine_shape(
            spec_generate_concat(parts, (n - 1) as nat, max_len, order)->Ok_0,
            spec_generate(parts[n - 1], max_len, order)->Ok_0,
            max_len,
            order,
            concat_shape(parts, (n - 1) as nat),
            spec_shape(parts[n - 1]),
        );
    }
}

proof fn lemma_shape_alt(parts: Seq<Node>, n: nat, max_len: Option<usize>, order: GenerationOrder)
    requires
        spec_generate_alternation(parts, n, max_len, order) is Ok,
    ensures
        shape_holds(spec_generate_alternation(parts, n, max_len, order)->Ok_0, alt_shape(parts, n)),
    decreases parts, n,
{
    if n == 0 || n > parts.len() {
        assert(no_firsts().len() == 256);
    } else {
        let xs = spec_generate_alternation(parts, (n - 1) as nat, max_len, order)->Ok_0;
        let ys = spec_generate(parts[n - 1], max_len, order)->Ok_0;
        lemma_shape_alt(parts, (n - 1) as nat, max_len, order);
        lemma_shape(parts[n - 1], max_len, order);
        if n == 1 {
            assert(xs.len() == 0);
            assert(xs + ys =~= ys);
        } else {
            lemma_alt_shape(xs, ys, alt_shape(parts, (n - 1) as nat), spec_shape(parts[n - 1]));
        }
    }
}

/// Where the uniqueness check accepts a tree, generation lists each string
/// at most once.
pub proof fn law_unique_generation(tree: Node, max_len: Option<usize>, order: GenerationOrder)
    requires
        spec_unique(tree),
        spec_generate(tree, max_len, order) is Ok,
    ensures
        (spec_generate(tree, max_len, order)->Ok_0).no_duplicates(),
{
    lemma_shape(tree, max_len, order);
}

proof fn lemma_at_least(l: Strings, min: usize)
    requires
        l.no_duplicates(),
    ensures
        at_least(l, min).no_duplicates(),
        forall|k: int| 0 <= k < at_least(l, min).len() ==> exists|i: int| 0 <= i < l.len() && #[trigger] at_least(l, min)[k] == l[i],
    decreases l.len(),
{
    if l.len() > 0 {
        let rest = at_least(l.drop_last(), min);
        lemma_drop_last_props(l, 0);
        lemma_at_least(l.drop_last(), min);
        let a = at_least(l, min);
        if l.last().len() >= min {
            assert(a == rest.push(l.last()));
            assert forall|k: int| 0 <= k < rest.len() implies rest[k] != l.last() by {
                let i = choose|i: int| 0 <= i < l.drop_last().len() && #[trigger] rest[k] == l.drop_last()[i];
                assert(l.drop_last()[i] == l[i]);
                assert(l.last() == l[l.len() - 1]);
            }
            lemma_no_dups_append(rest, seq![l.last()]);
            assert(rest + seq![l.last()] =~= rest.push(l.last()));
        }
        assert forall|k: int| 0 <= k < a.len() implies exists|i: int| 0 <= i < l.len() && #[trigger] a[k] == l[i] by {
            if k < rest.len() {
                assert(a[k] == rest[k]);
                let i = choose|i: int| 0 <= i < l.drop_last().len() && #[trigger] rest[k] == l.drop_last()[i];
                assert(l.drop_last()[i] == l[i]);
            } else {
                assert(a[k] == l[l.len() - 1]);
            }
        }
    }
}

proof fn lemma_decode_all(l: Strings)
    requires
        l.no_duplicates(),
        forall|i: int| 0 <= i < l.len() ==> vstd::utf8::valid_utf8(#[trigger] l[i]),
    ensures
        decode_all(l).no_duplicates(),
{
    let d = decode_all(l);
    assert forall|i: int, j: int| 0 <= i < d.len() && 0 <= j < d.len() && i != j implies d[i] != d[j] by {
        vstd::utf8::decode_utf8_encode_utf8(l[i]);
        vstd::utf8::decode_utf8_encode_utf8(l[j]);
        assert(d[i] == vstd::utf8::decode_utf8(l[i]));
        assert(d[j] == vstd::utf8::decode_utf8(l[j]));
    }
}

/// Where the uniqueness check accepts a tree, the Match Count counts Match
/// Strings: under a maximum length below `usize::MAX`, where every node of
/// the tree has a finite distribution, it is the number of generated Match
/// Strings, and none of them occurs twice.
pub proof fn law_match_count_counts_distinct_strings(tree: Node, constraints: LengthConstraints, order: GenerationOrder)
    requires
        constraints.max matches Some(max) && max < usize::MAX,
        all_finite(tree, constraints.max),
        spec_candidates(tree, constraints, order) is Ok,
        spec_unique(tree),
    ensures
        spec_stats(spec_filtered(spec_dist(tree, constraints.max), constraints.min, constraints.max)).0
            == Some(spec_candidates(tree, constraints, order)->Ok_0.len()),
        (spec_candidates(tree, constraints, order)->Ok_0).no_duplicates(),
{
    law_generation_yields_match_count(tree, constraints, order);
    let l = spec_generate(tree, constraints.max, order)->Ok_0;
    law_unique_generation(tree, constraints.max, order);
    lemma_at_least(l, constraints.min);
    lemma_decode_all(at_least(l, constraints.min));
}

/// The number of characters from `lo` to `hi` whose UTF-8 encoding has `w`
/// bytes.
pub open spec fn chars_of_width(lo: u32, hi: int, w: nat) -> nat
    decreases hi - lo + 1,
{
    if hi < lo {
        0
    } else {
        chars_of_width(lo, hi - 1, w) + if is_scalar(hi as u32) && encode_scalar(hi as u32).len() == w { 1nat } else { 0nat }
    }
}

/// The number of characters of a Unicode class, range by range, whose UTF-8
/// encoding has `w` bytes.
pub open spec fn class_chars_of_width(ranges: Seq<(char, char)>, w: nat) -> nat
    decreases ranges.len(),
{
    if ranges.len() == 0 {
        0
    } else {
        class_chars_of_width(ranges.drop_last(), w)
            + chars_of_width(ranges.last().0 as u32, (ranges.last().1 as u32) as int, w)
    }
}

proof fn lemma_range_width_count(lo: u32, hi: int, w: usize)
    requires
        hi <= u32::MAX,
    ensures
        count_at(width_counts(range_widths(lo, hi)), w) == chars_of_width(lo, hi, w as nat),
    decreases hi - lo + 1,
{
    if hi >= lo {
        let prev = range_widths(lo, hi - 1);
        lemma_range_width_count(lo, hi - 1, w);
        let c = hi as u32;
        if is_scalar(c) {
            lemma_lead_byte(c);
        }
        match scalar_width(c) {
            Some(x) => {
                assert(range_widths(lo, hi) == prev.push(x));
                let wc = width_counts(prev.push(x));
                assert(wc =~= width_counts(prev).push((x, 1nat)));
                assert(wc.drop_last() =~= width_counts(prev));
                assert(is_scalar(c));
            },
            None => {
                assert(range_widths(lo, hi) == prev);
                assert(!is_scalar(c));
            },
        }
    }
}

/// A Unicode class counts, at every Byte Length `w` and whatever the maximum
/// length, exactly its characters whose UTF-8 encoding has `w` bytes, and is
/// finite.
pub proof fn law_class_widths(ranges: Vec<(char, char)>, max_len: Option<usize>, w: usize)
    ensures
        count_at(spec_dist(Node::UnicodeClass(ranges), max_len).0, w) == class_chars_of_width(ranges@, w as nat),
        !spec_dist(Node::UnicodeClass(ranges), max_len).1,
{
    let ws = unicode_widths(ranges@);
    lemma_compact(width_counts(ws));
    lemma_class_width_count(ranges@, w);
}

proof fn lemma_class_width_count(r: Seq<(char, char)>, w: usize)
    ensures
        count_at(width_counts(unicode_widths(r)), w) == class_chars_of_width(r, w as nat),
    decreases r.len(),
{
    if r.len() > 0 {
        let a = unicode_widths(r.drop_last());
        let b = range_widths(r.last().0 as u32, (r.last().1 as u32) as int);
        lemma_class_width_count(r.drop_last(), w);
        lemma_range_width_count(r.last().0 as u32, (r.last().1 as u32) as int, w);
        assert(width_counts(a + b) =~= width_counts(a) + width_counts(b));
        lemma_count_at_append(width_counts(a), width_counts(b), w);
    }
}

proof fn lemma_join_one_has(x: Seq<u8>, ys: Strings, max_len: Option<usize>, j: int)
    requires
        0 <= j < ys.len(),
        fits(x.len() + ys[j].len(), max_len),
    ensures
        join_one(x, ys, max_len).contains(x + ys[j]),
    decreases ys.len(),
{
    let prev = join_one(x, ys.drop_last(), max_len);
    if j == ys.len() - 1 {
        assert(join_one(x, ys, max_len) == prev.push(x + ys.last()));
        assert(join_one(x, ys, max_len)[prev.len() as int] == x + ys[j]);
    } else {
        assert(ys.drop_last()[j] == ys[j]);
        lemma_join_one_has(x, ys.drop_last(), max_len, j);
        let k = choose|k: int| 0 <= k < prev.len() && prev[k] == x + ys[j];
        assert(join_one(x, ys, max_len)[k] == prev[k]);
    }
}

proof fn lemma_join_one_inv_has(xs: Strings, y: Seq<u8>, max_len: Option<usize>, i: int)
    requires
        0 <= i < xs.len(),
        fits(xs[i].len() + y.len(), max_len),
    ensures
        join_one_inv(xs, y, max_len).contains(xs[i] + y),
    decreases xs.len(),
{
    let prev = join_one_inv(xs.drop_last(), y, max_len);
    if i == xs.len() - 1 {
        assert(join_one_inv(xs, y, max_len) == prev.push(xs.last() + y));
        assert(join_one_inv(xs, y, max_len)[prev.len() as int] == xs[i] + y);
    } else {
        assert(xs.drop_last()[i] == xs[i]);
        lemma_join_one_inv_has(xs.drop_last(), y, max_len, i);
        let k = choose|k: int| 0 <= k < prev.len() && prev[k] == xs[i] + y;
        assert(join_one_inv(xs, y, max_len)[k] == prev[k]);
    }
}

proof fn lemma_combine_has(xs: Strings, ys: Strings, max_len: Option<usize>, order: GenerationOrder, i: int, j: int)
    requires
        0 <= i < xs.len(),
        0 <= j < ys.len(),
        fits(xs[i].len() + ys[j].len(), max_len),
    ensures
        combine(xs, ys, max_len, order).contains(xs[i] + ys[j]),
    decreases xs.len() + ys.len(),
{
    match order {
        GenerationOrder::Default => {
            let prev = join(xs.drop_last(), ys, max_len);
            let one = join_one(xs.last(), ys, max_len);
            assert(join(xs, ys, max_len) == prev + one);
            if i == xs.len() - 1 {
                lemma_join_one_has(xs.last(), ys, max_len, j);
                let k = choose|k: int| 0 <= k < one.len() && one[k] == xs[i] + ys[j];
                assert((prev + one)[prev.len() + k] == one[k]);
            } else {
                assert(xs.drop_last()[i] == xs[i]);
                lemma_combine_has(xs.drop_last(), ys, max_len, order, i, j);
                let k = choose|k: int| 0 <= k < prev.len() && prev[k] == xs[i] + ys[j];
                assert((prev + one)[k] == prev[k]);
            }
        },
        GenerationOrder::Inverted => {
            let prev = join_inv(xs, ys.drop_last(), max_len);
            let one = join_one_inv(xs, ys.last(), max_len);
            assert(join_inv(xs, ys, max_len) == prev + one);
            if j == ys.len() - 1 {
                lemma_join_one_inv_has(xs, ys.last(), max_len, i);
                let k = choose|k: int| 0 <= k < one.len() && one[k] == xs[i] + ys[j];
                assert((prev + one)[prev.len() + k] == one[k]);
            } else {
                assert(ys.drop_last()[j] == ys[j]);
                lemma_combine_has(xs, ys.drop_last(), max_len, order, i, j);
                let k = choose|k: int| 0 <= k < prev.len() && prev[k] == xs[i] + ys[j];
                assert((prev + one)[k] == prev[k]);
            }
        },
    }
}

proof fn lemma_join_one_fits(x: Seq<u8>, ys: Strings, max_len: Option<usize>, k: int)
    requires
        0 <= k < join_one(x, ys, max_len).len(),
    ensures
        fits(join_one(x, ys, max_len)[k].len(), max_len),
    decreases ys.len(),
{
    let prev = join_one(x, ys.drop_last(), max_len);
    if k < prev.len() {
        lemma_join_one_fits(x, ys.drop_last(), max_len, k);
    }
}

proof fn lemma_join_one_inv_fits(xs: Strings, y: Seq<u8>, max_len: Option<usize>, k: int)
    requires
        0 <= k < join_one_inv(xs, y, max_len).len(),
    ensures
        fits(join_one_inv(xs, y, max_len)[k].len(), max_len),
    decreases xs.len(),
{
    let prev = join_one_inv(xs.drop_last(), y, max_len);
    if k < prev.len() {
        lemma_join_one_inv_fits(xs.drop_last(), y, max_len, k);
    }
}

proof fn lemma_combine_fits(xs: Strings, ys: Strings, max_len: Option<usize>, order: GenerationOrder, k: int)
    requires
        0 <= k < combine(xs, ys, max_len, order).len(),
    ensures
        fits(combine(xs, ys, max_len, order)[k].len(), max_len),
    decreases xs.len() + ys.len(),
{
    match order {
        GenerationOrder::Default => {
            let prev = join(xs.drop_last(), ys, max_len);
            let one = join_one(xs.last(), ys, max_len);
            assert(join(xs, ys, max_len) == prev + one);
            if k < prev.len() {
                lemma_combine_fits(xs.drop_last(), ys, max_len, order, k);
            } else {
                lemma_join_one_fits(xs.last(), ys, max_len, k - prev.len());
            }
        },
        GenerationOrder::Inverted => {
            let prev = join_inv(xs, ys.drop_last(), max_len);
            let one = join_one_inv(xs, ys.last(), max_len);
            assert(join_inv(xs, ys, max_len) == prev + one);
            if k < prev.len() {
                lemma_combine_fits(xs, ys.drop_last(), max_len, order, k);
            } else {
                lemma_join_one_inv_fits(xs, ys.last(), max_len, k - prev.len());
            }
        },
    }
}

/// The strings of `k` pieces from `xs` in a row, each further piece added in
/// front by concatenation within the length bound: no piece is the empty
/// string.
pub open spec fn piece_strings(xs: Strings, k: nat, max_len: Option<usize>, order: GenerationOrder) -> Strings
    decreases k,
{
    if k == 0 {
        seq![seq![]]
    } else {
        combine(xs, piece_strings(xs, (k - 1) as nat, max_len, order), max_len, order)
    }
}

proof fn lemma_rep_members(s: Strings, min: nat, bound: nat, d: nat, max_len: Option<usize>, order: GenerationOrder, t: Seq<u8>)
    requires
        d <= bound,
    ensures
        rep_strings(s, min, bound, d, max_len, order).contains(t) <==>
            exists|j: nat| min <= d + j <= bound && #[trigger] piece_strings(s, j, max_len, order).contains(t),
    decreases bound - d,
{
    let r = rep_strings(s, min, bound, d, max_len, order);
    let head: Strings = if d >= min { seq![seq![]] } else { seq![] };
    let p0 = piece_strings(s, 0, max_len, order);
    assert(p0 == seq![Seq::<u8>::empty()]);
    if d >= bound {
        assert(r == head);
        if r.contains(t) {
            let k = choose|k: int| 0 <= k < r.len() && r[k] == t;
            assert(p0[0] == t);
            assert(piece_strings(s, 0, max_len, order).contains(t));
        }
        if exists|j: nat| min <= d + j <= bound && #[trigger] piece_strings(s, j, max_len, order).contains(t) {
            let j = choose|j: nat| min <= d + j <= bound && #[trigger] piece_strings(s, j, max_len, order).contains(t);
            assert(j == 0);
            let k = choose|k: int| 0 <= k < p0.len() && p0[k] == t;
            assert(r[0] == t);
        }
    } else {
        let rest = rep_strings(s, min, bound, d + 1, max_len, order);
        let c = combine(s, rest, max_len, order);
        assert(r == head + c);
        if r.contains(t) {
            let k = choose|k: int| 0 <= k < r.len() && r[k] == t;
            if k < head.len() {
                assert(p0[0] == t);
                assert(piece_strings(s, 0, max_len, order).contains(t));
            } else {
                assert(c[k - head.len()] == t);
                lemma_combine_mem(s, rest, max_len, order, k - head.len());
                lemma_combine_fits(s, rest, max_len, order, k - head.len());
                let (i, m) = choose|i: int, m: int| 0 <= i < s.len() && 0 <= m < rest.len() && c[k - head.len()] == s[i] + rest[m];
                lemma_rep_members(s, min, bound, d + 1, max_len, order, rest[m]);
                assert(rest.contains(rest[m]));
                let j2 = choose|j2: nat| min <= d + 1 + j2 <= bound && #[trigger] piece_strings(s, j2, max_len, order).contains(rest[m]);
                let pj = piece_strings(s, j2, max_len, order);
                let q = choose|q: int| 0 <= q < pj.len() && pj[q] == rest[m];
                lemma_combine_has(s, pj, max_len, order, i, q);
                assert(piece_strings(s, j2 + 1, max_len, order) == combine(s, pj, max_len, order));
                assert(piece_strings(s, (j2 + 1) as nat, max_len, order).contains(t));
            }
        }
        if exists|j: nat| min <= d + j <= bound && #[trigger] piece_strings(s, j, max_len, order).contains(t) {
            let j = choose|j: nat| min <= d + j <= bound && #[trigger] piece_strings(s, j, max_len, order).contains(t);
            if j == 0 {
                let k = choose|k: int| 0 <= k < p0.len() && p0[k] == t;
                assert(head[0] == t);
                assert(r[0] == t);
            } else {
                let pj = piece_strings(s, (j - 1) as nat, max_len, order);
                let cj = piece_strings(s, j, max_len, order);
                assert(cj == combine(s, pj, max_len, order));
                let k = choose|k: int| 0 <= k < cj.len() && cj[k] == t;
                lemma_combine_mem(s, pj, max_len, order, k);
                lemma_combine_fits(s, pj, max_len, order, k);
                let (i, m) = choose|i: int, m: int| 0 <= i < s.len() && 0 <= m < pj.len() && cj[k] == s[i] + pj[m];
                lemma_rep_members(s, min, bound, d + 1, max_len, order, pj[m]);
                assert(pj.contains(pj[m]));
                assert(min <= (d + 1) + (j - 1) as nat <= bound);
                assert(rest.contains(pj[m]));
                let q = choose|q: int| 0 <= q < rest.len() && rest[q] == pj[m];
                lemma_combine_has(s, rest, max_len, order, i, q);
                let z = choose|z: int| 0 <= z < c.len() && c[z] == s[i] + rest[q];
                assert(r[head.len() + z] == t);
            }
        }
    }
}

/// Generation of a repetition from `min` to `most` times yields exactly the
/// strings made of `k` generated strings of its part in a row, for some `k`
/// from `min` to `most`, that fit into the length bound: a part repeated from
/// zero times yields the empty string.
pub proof fn law_repetition_strings(min: u32, most: u32, sub: Box<Node>, max_len: Option<usize>, order: GenerationOrder, t: Seq<u8>)
    requires
        spec_generate(Node::Repetition { min, max: Some(most), sub }, max_len, order) is Ok,
    ensures
        (spec_generate(Node::Repetition { min, max: Some(most), sub }, max_len, order)->Ok_0).contains(t) <==>
            exists|k: nat| min <= k <= most
                && #[trigger] piece_strings(spec_generate(*sub, max_len, order)->Ok_0, k, max_len, order).contains(t),
{
    let s = spec_generate(*sub, max_len, order)->Ok_0;
    assert(rep_bound(*sub, min, Some(most), max_len) == Ok::<nat, crate::error::Unsupported>(most as nat));
    lemma_rep_members(s, min as nat, most as nat, 0, max_len, order, t);
    if exists|j: nat| min <= 0 + j <= most && #[trigger] piece_strings(s, j, max_len, order).contains(t) {
        let j = choose|j: nat| min <= 0 + j <= most && #[trigger] piece_strings(s, j, max_len, order).contains(t);
        assert(min <= j <= most && piece_strings(s, j, max_len, order).contains(t));
    }
    if exists|k: nat| min <= k <= most && #[trigger] piece_strings(s, k, max_len, order).contains(t) {
        let k = choose|k: nat| min <= k <= most && #[trigger] piece_strings(s, k, max_len, order).contains(t);
        assert(min <= 0 + k <= most);
    }
}

proof fn lemma_alt_members(parts: Seq<Node>, n: nat, max_len: Option<usize>, order: GenerationOrder, t: Seq<u8>)
    requires
        n <= parts.len(),
        spec_generate_alternation(parts, n, max_len, order) is Ok,
    ensures
        forall|i: int| 0 <= i < n ==> (#[trigger] spec_generate(parts[i], max_len, order)) is Ok,
        (spec_generate_alternation(parts, n, max_len, order)->Ok_0).contains(t) <==>
            exists|i: int| 0 <= i < n && (#[trigger] spec_generate(parts[i], max_len, order)->Ok_0).contains(t),
    decreases n,
{
    if n > 0 {
        let xs = spec_generate_alternation(parts, (n - 1) as nat, max_len, order)->Ok_0;
        let ys = spec_generate(parts[n - 1], max_len, order)->Ok_0;
        lemma_alt_members(parts, (n - 1) as nat, max_len, order, t);
        let l = xs + ys;
        assert(spec_generate_alternation(parts, n, max_len, order)->Ok_0 == l);
        if l.contains(t) {
            let k = choose|k: int| 0 <= k < l.len() && l[k] == t;
            if k < xs.len() {
                assert(xs[k] == t);
                assert(xs.contains(t));
            } else {
                assert(ys[k - xs.len()] == t);
                assert(ys.contains(t));
                assert(spec_generate(parts[n - 1], max_len, order)->Ok_0.contains(t));
            }
        }
        if exists|i: int| 0 <= i < n && (#[trigger] spec_generate(parts[i], max_len, order)->Ok_0).contains(t) {
            let i = choose|i: int| 0 <= i < n && (#[trigger] spec_generate(parts[i], max_len, order)->Ok_0).contains(t);
            if i < n - 1 {
                let k = choose|k: int| 0 <= k < xs.len() && xs[k] == t;
                assert(l[k] == t);
            } else {
                let k = choose|k: int| 0 <= k < ys.len() && ys[k] == t;
                assert(l[xs.len() + k] == t);
            }
        }
    }
}

/// Generation of an alternation yields exactly the strings that some of its
/// branches yields.
pub proof fn law_alternation_strings(parts: Vec<Node>, max_len: Option<usize>, order: GenerationOrder, t: Seq<u8>)
    requires
        spec_generate(Node::Alternation(parts), max_len, order) is Ok,
    ensures
        forall|i: int| 0 <= i < parts.len() ==> (#[trigger] spec_generate(parts@[i], max_len, order)) is Ok,
        (spec_generate(Node::Alternation(parts), max_len, order)->Ok_0).contains(t) <==>
            exists|i: int| 0 <= i < parts.len() && (#[trigger] spec_generate(parts@[i], max_len, order)->Ok_0).contains(t),
{
    lemma_alt_members(parts@, parts@.len(), max_len, order, t);
}

proof fn lemma_range_members(lo: u32, hi: int, max_len: Option<usize>, t: Seq<u8>)
    requires
        hi <= u32::MAX,
    ensures
        range_strings(lo, hi, max_len).contains(t) <==> exists|c: u32|
            is_scalar(c) && lo <= c <= hi && fits(encode_scalar(c).len(), max_len) && t == #[trigger] encode_scalar(c),
    decreases hi - lo + 1,
{
    if hi >= lo {
        let prev = range_strings(lo, hi - 1, max_len);
        let l = range_strings(lo, hi, max_len);
        lemma_range_members(lo, hi - 1, max_len, t);
        let c0 = hi as u32;
        let added = is_scalar(c0) && fits(encode_scalar(c0).len(), max_len);
        if added {
            assert(l == prev.push(encode_scalar(c0)));
        } else {
            assert(l == prev);
        }
        if l.contains(t) {
            let k = choose|k: int| 0 <= k < l.len() && l[k] == t;
            if k < prev.len() {
                assert(prev[k] == t);
                assert(prev.contains(t));
            } else {
                assert(t == encode_scalar(c0));
            }
        }
        if exists|c: u32| is_scalar(c) && lo <= c <= hi && fits(encode_scalar(c).len(), max_len) && t == #[trigger] encode_scalar(c) {
            let c = choose|c: u32| is_scalar(c) && lo <= c <= hi && fits(encode_scalar(c).len(), max_len) && t == #[trigger] encode_scalar(c);
            if c < hi {
                let k = choose|k: int| 0 <= k < prev.len() && prev[k] == t;
                assert(l[k] == t);
            } else {
                assert(c == c0);
                assert(l[prev.len() as int] == t);
            }
        } else {
            if l.contains(t) {
                let k = choose|k: int| 0 <= k < l.len() && l[k] == t;
                if k >= prev.len() {
                    assert(is_scalar(c0) && lo <= c0 <= hi && fits(encode_scalar(c0).len(), max_len) && t == encode_scalar(c0));
                }
            }
        }
    }
}

/// `c` lies in one of the ranges.
pub open spec fn in_ranges(ranges: Seq<(char, char)>, c: u32) -> bool {
    exists|i: int| 0 <= i < ranges.len() && (ranges[i].0 as u32) <= c && c <= (ranges[i].1 as u32)
}

proof fn lemma_unicode_members(ranges: Seq<(char, char)>, max_len: Option<usize>, t: Seq<u8>)
    ensures
        unicode_strings(ranges, max_len).contains(t) <==> exists|c: u32|
            is_scalar(c) && in_ranges(ranges, c) && fits(encode_scalar(c).len(), max_len) && t == #[trigger] encode_scalar(c),
    decreases ranges.len(),
{
    if ranges.len() > 0 {
        let rs = ranges.drop_last();
        let r = ranges.last();
        let lo = r.0 as u32;
        let hi = r.1 as u32;
        let prev = unicode_strings(rs, max_len);
        let block = range_strings(lo, hi as int, max_len);
        let l = unicode_strings(ranges, max_len);
        lemma_unicode_members(rs, max_len, t);
        lemma_range_members(lo, hi as int, max_len, t);
        assert(l == prev + block);
        assert(ranges[ranges.len() - 1] == r);
        if l.contains(t) {
            let k = choose|k: int| 0 <= k < l.len() && l[k] == t;
            if k < prev.len() {
                assert(prev[k] == t);
                assert(prev.contains(t));
                let c = choose|c: u32| is_scalar(c) && in_ranges(rs, c) && fits(encode_scalar(c).len(), max_len) && t == #[trigger] encode_scalar(c);
                let i = choose|i: int| 0 <= i < rs.len() && (rs[i].0 as u32) <= c && c <= (rs[i].1 as u32);
                assert(rs[i] == ranges[i]);
                assert(in_ranges(ranges, c));
            } else {
                assert(block[k - prev.len()] == t);
                assert(block.contains(t));
                let c = choose|c: u32| is_scalar(c) && lo <= c <= hi && fits(encode_scalar(c).len(), max_len) && t == #[trigger] encode_scalar(c);
                assert(in_ranges(ranges, c));
            }
        }
        if exists|c: u32| is_scalar(c) && in_ranges(ranges, c) && fits(encode_scalar(c).len(), max_len) && t == #[trigger] encode_scalar(c) {
            let c = choose|c: u32| is_scalar(c) && in_ranges(ranges, c) && fits(encode_scalar(c).len(), max_len) && t == #[trigger] encode_scalar(c);
            let i = choose|i: int| 0 <= i < ranges.len() && (ranges[i].0 as u32) <= c && c <= (ranges[i].1 as u32);
            if i < ranges.len() - 1 {
                assert(rs[i] == ranges[i]);
                assert(in_ranges(rs, c));
                let k = choose|k: int| 0 <= k < prev.len() && prev[k] == t;
                assert(l[k] == t);
            } else {
                let k = choose|k: int| 0 <= k < block.len() && block[k] == t;
                assert(l[prev.len() + k] == t);
            }
        }
    }
}

/// Generation of a Unicode class yields exactly the UTF-8 encodings of the
/// characters in its ranges that fit into the length bound.
pub proof fn law_class_strings(ranges: Vec<(char, char)>, max_len: Option<usize>, order: GenerationOrder, t: Seq<u8>)
    ensures
        spec_generate(Node::UnicodeClass(ranges), max_len, order) is Ok,
        (spec_generate(Node::UnicodeClass(ranges), max_len, order)->Ok_0).contains(t) <==> exists|c: u32|
            is_scalar(c) && in_ranges(ranges@, c) && fits(encode_scalar(c).len(), max_len) && t == #[trigger] encode_scalar(c),
{
    lemma_unicode_members(ranges@, max_len, t);
}

/// The pieces one after the other.
pub open spec fn joined(ps: Strings) -> Seq<u8>
    decreases ps.len(),
{
    if ps.len() == 0 { seq![] } else { joined(ps.drop_last()) + ps.last() }
}

/// `ps` takes one generated string from each of the first `ps.len()` parts.
pub open spec fn one_from_each(parts: Seq<Node>, ps: Strings, max_len: Option<usize>, order: GenerationOrder) -> bool {
    forall|i: int| 0 <= i < ps.len() ==> (#[trigger] spec_generate(parts[i], max_len, order)->Ok_0).contains(ps[i])
}

proof fn lemma_concat_members(parts: Seq<Node>, n: nat, max_len: Option<usize>, order: GenerationOrder, t: Seq<u8>)
    requires
        n <= parts.len(),
        spec_generate_concat(parts, n, max_len, order) is Ok,
    ensures
        forall|i: int| 0 <= i < n ==> (#[trigger] spec_generate(parts[i], max_len, order)) is Ok,
        (spec_generate_concat(parts, n, max_len, order)->Ok_0).contains(t) <==> exists|ps: Strings|
            ps.len() == n && one_from_each(parts, ps, max_len, order) && fits(t.len(), max_len) && t == #[trigger] joined(ps),
    decreases n,
{
    let l = spec_generate_concat(parts, n, max_len, order)->Ok_0;
    if n == 0 {
        assert(l == seq![Seq::<u8>::empty()]);
        if l.contains(t) {
            let k = choose|k: int| 0 <= k < l.len() && l[k] == t;
            let ps: Strings = seq![];
            assert(joined(ps) == t);
            assert(fits(t.len(), max_len));
        }
        if exists|ps: Strings| ps.len() == n && one_from_each(parts, ps, max_len, order) && fits(t.len(), max_len) && t == #[trigger] joined(ps) {
            let ps = choose|ps: Strings| ps.len() == n && one_from_each(parts, ps, max_len, order) && fits(t.len(), max_len) && t == #[trigger] joined(ps);
            assert(l[0] == t);
        }
    } else {
        let xs = spec_generate_concat(parts, (n - 1) as nat, max_len, order)->Ok_0;
        let ys = spec_generate(parts[n - 1], max_len, order)->Ok_0;
        assert(l == combine(xs, ys, max_len, order));
        lemma_concat_members(parts, (n - 1) as nat, max_len, order, t);
        if l.contains(t) {
            let k = choose|k: int| 0 <= k < l.len() && l[k] == t;
            lemma_combine_mem(xs, ys, max_len, order, k);
            lemma_combine_fits(xs, ys, max_len, order, k);
            let (i, j) = choose|i: int, j: int| 0 <= i < xs.len() && 0 <= j < ys.len() && l[k] == xs[i] + ys[j];
            lemma_concat_members(parts, (n - 1) as nat, max_len, order, xs[i]);
            assert(xs.contains(xs[i]));
            let ps0 = choose|ps: Strings| ps.len() == n - 1 && one_from_each(parts, ps, max_len, order)
                && fits(xs[i].len(), max_len) && xs[i] == #[trigger] joined(ps);
            let ps = ps0.push(ys[j]);
            assert(ps.drop_last() =~= ps0);
            assert(joined(ps) == t);
            assert(ys.contains(ys[j]));
            assert forall|q: int| 0 <= q < ps.len() implies (#[trigger] spec_generate(parts[q], max_len, order)->Ok_0).contains(ps[q]) by {
                if q < n - 1 {
                    assert(ps[q] == ps0[q]);
                }
            }
        }
        if exists|ps: Strings| ps.len() == n && one_from_each(parts, ps, max_len, order) && fits(t.len(), max_len) && t == #[trigger] joined(ps) {
            let ps = choose|ps: Strings| ps.len() == n && one_from_each(parts, ps, max_len, order) && fits(t.len(), max_len) && t == #[trigger] joined(ps);
            let ps0 = ps.drop_last();
            let x = joined(ps0);
            let y = ps.last();
            assert(t == x + y);
            assert(fits(x.len(), max_len));
            assert(one_from_each(parts, ps0, max_len, order)) by {
                assert forall|q: int| 0 <= q < ps0.len() implies (#[trigger] spec_generate(parts[q], max_len, order)->Ok_0).contains(ps0[q]) by {
                    assert(ps0[q] == ps[q]);
                    assert(spec_generate(parts[q], max_len, order)->Ok_0.contains(ps[q]));
                }
            }
            lemma_concat_members(parts, (n - 1) as nat, max_len, order, x);
            assert(xs.contains(x));
            let i = choose|i: int| 0 <= i < xs.len() && xs[i] == x;
            assert(ps[n - 1] == y);
            assert(spec_generate(parts[n - 1], max_len, order)->Ok_0.contains(ps[n - 1]));
            let j = choose|j: int| 0 <= j < ys.len() && ys[j] == y;
            lemma_combine_has(xs, ys, max_len, order, i, j);
        }
    }
}

/// Generation of a concatenation yields exactly the strings made of one
/// generated string of each part in order that fit into the length bound.
pub proof fn law_concatenation_strings(parts: Vec<Node>, max_len: Option<usize>, order: GenerationOrder, t: Seq<u8>)
    requires
        spec_generate(Node::Concat(parts), max_len, order) is Ok,
    ensures
        forall|i: int| 0 <= i < parts.len() ==> (#[trigger] spec_generate(parts@[i], max_len, order)) is Ok,
        (spec_generate(Node::Concat(parts), max_len, order)->Ok_0).contains(t) <==> exists|ps: Strings|
            ps.len() == parts.len() && one_from_each(parts@, ps, max_len, order) && fits(t.len(), max_len)
                && t == #[trigger] joined(ps),
{
    lemma_concat_members(parts@, parts@.len(), max_len, order, t);
}

/// The number of bytes in the ranges of a byte class.
pub open spec fn bytes_in(ranges: Seq<(u8, u8)>) -> nat
    decreases ranges.len(),
{
    if ranges.len() == 0 {
        0
    } else {
        bytes_in(ranges.drop_last())
            + if ranges.last().0 <= ranges.last().1 { (ranges.last().1 - ranges.last().0 + 1) as nat } else { 0nat }
    }
}

proof fn lemma_ones_count(n: nat, w: usize)
    ensures
        count_at(width_counts(Seq::new(n, |i: int| 1usize)), w) == if w == 1 { n } else { 0 },
    decreases n,
{
    if n > 0 {
        lemma_ones_count((n - 1) as nat, w);
        let wc = width_counts(Seq::new(n, |i: int| 1usize));
        assert(wc.drop_last() =~= width_counts(Seq::new((n - 1) as nat, |i: int| 1usize)));
        assert(wc.last() == (1usize, 1nat));
    }
}

proof fn lemma_byte_width_count(r: Seq<(u8, u8)>, w: usize)
    ensures
        count_at(width_counts(byte_widths(r)), w) == if w == 1 { bytes_in(r) } else { 0 },
    decreases r.len(),
{
    if r.len() > 0 {
        let last = r.last();
        let n: nat = if last.0 <= last.1 { (last.1 - last.0 + 1) as nat } else { 0 };
        let a = byte_widths(r.drop_last());
        let b = Seq::new(n, |i: int| 1usize);
        lemma_byte_width_count(r.drop_last(), w);
        lemma_ones_count(n, w);
        assert(byte_widths(r) == a + b);
        assert(width_counts(a + b) =~= width_counts(a) + width_counts(b));
        lemma_count_at_append(width_counts(a), width_counts(b), w);
    }
}

/// A byte class counts each of its bytes once, as a string of one byte,
/// whatever the maximum length, and is finite.
pub proof fn law_byte_class_widths(ranges: Vec<(u8, u8)>, max_len: Option<usize>, w: usize)
    ensures
        count_at(spec_dist(Node::ByteClass(ranges), max_len).0, w) == if w == 1 { bytes_in(ranges@) } else { 0 },
        !spec_dist(Node::ByteClass(ranges), max_len).1,
{
    lemma_compact(width_counts(byte_widths(ranges@)));
    lemma_byte_width_count(ranges@, w);
}

/// A literal counts one string, of its own length, and generation yields it
/// where it fits; the empty pattern and an assertion count and yield the
/// empty string alone.
pub proof fn law_literal(bytes: Vec<u8>, a: crate::syntax::Assertion, max_len: Option<usize>, order: GenerationOrder, w: usize, t: Seq<u8>)
    ensures
        count_at(spec_dist(Node::Literal(bytes), max_len).0, w) == if w == bytes@.len() { 1nat } else { 0nat },
        (spec_generate(Node::Literal(bytes), max_len, order)->Ok_0).contains(t) <==> t == bytes@ && fits(t.len(), max_len),
        count_at(spec_dist(Node::Empty, max_len).0, w) == if w == 0 { 1nat } else { 0nat },
        count_at(spec_dist(Node::Look(a), max_len).0, w) == if w == 0 { 1nat } else { 0nat },
        (spec_generate(Node::Empty, max_len, order)->Ok_0).contains(t) <==> t.len() == 0,
        (spec_generate(Node::Look(a), max_len, order)->Ok_0).contains(t) <==> t.len() == 0,
{
    let d = spec_dist(Node::Literal(bytes), max_len).0;
    assert(d == seq![(bytes.len(), 1nat)]);
    assert(bytes@.len() == bytes.len());
    assert(d.drop_last() =~= Seq::<(usize, nat)>::empty());
    let u = crate::calculate::unit_counts();
    assert(u.drop_last() =~= Seq::<(usize, nat)>::empty());
    assert(u.last() == (0usize, 1nat));
    assert(count_at(Seq::<(usize, nat)>::empty(), w) == 0);
    assert(count_at(d, w) == count_at(d.drop_last(), w) + if d.last().0 == w { d.last().1 } else { 0 });
    assert(count_at(u, w) == count_at(u.drop_last(), w) + if u.last().0 == w { u.last().1 } else { 0 });
    assert(spec_dist(Node::Empty, max_len).0 == u);
    let l = spec_generate(Node::Literal(bytes), max_len, order)->Ok_0;
    if l.contains(t) {
        let k = choose|k: int| 0 <= k < l.len() && l[k] == t;
    }
    if t == bytes@ && fits(t.len(), max_len) {
        assert(l[0] == t);
    }
    let e: Strings = seq![seq![]];
    if e.contains(t) {
        let k = choose|k: int| 0 <= k < e.len() && e[k] == t;
    }
    if t.len() == 0 {
        assert(e[0] =~= t);
    }
}

} // verus!
