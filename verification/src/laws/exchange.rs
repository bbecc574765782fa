//! A stretch does not tell the channels of an image apart.

use super::answers::{is_deterministic, lemma_one_decision, lemma_one_value};
use super::clipping::{
    every_sample, lemma_every_sample, lemma_one_of_every_is_sample, lemma_sample_is_one_of_every,
};
use super::exact::{
    denotes, into_unit, is_exact, lemma_exact_binary, lemma_exact_ratio, lemma_exact_whole,
};
use super::order::{
    are_numbers, how_many, is_between_ranks, is_percentile_of, keys_follow,
    lemma_median_is_middle, lemma_percentiles_are_exact, rounds_exactly, stands_at,
};
use super::peaks::lemma_is_positive;
use super::reals::product;
use super::statistics::lemma_one_median;
use super::stretching::{
    lemma_one_apart, lemma_one_application, lemma_one_linked_stats, lemma_one_map,
    lemma_one_midtone, lemma_one_positive, lemma_one_stretched_channel,
};
use crate::arith::{
    Arithmetic, Binary, Formula, Test, Unary, binary_answers, decides, evals, whole,
};
use crate::frame::{Raster, maps_image};
use crate::plane::{largest_of, maps, picked};
use crate::stats::is_median;
use crate::stretch::{
    MtfStats, StretchAlgorithm, StretchOptions, applies_to_image, are_positive, arcsinh_of,
    gamma_for, gamma_of, is_clipped_by, is_gamma_corrected, is_linked_solution,
    is_linked_solution_by, is_mtf_stretched, is_percentile_clipped, is_statistical_stretched,
    is_stretched, is_stretched_by, log_of, rescaled, residual_of, shadowed,
};
use vstd::prelude::*;

verus! {

/// No two samples stand for one number.
pub open spec fn is_faithful<T>(val: spec_fn(T) -> real) -> bool {
    forall|x: T, y: T| #[trigger] val(x) == #[trigger] val(y) ==> x == y
}

/// Channel `c` of an image whose channels `a` and `b` are exchanged, as counted
/// before.
pub open spec fn partner(c: int, a: int, b: int) -> int {
    if c == a {
        b
    } else if c == b {
        a
    } else {
        c
    }
}

/// An image with channels `a` and `b` exchanged.
pub open spec fn exchanged<T>(image: Raster<T>, a: int, b: int) -> Raster<T> {
    Raster {
        width: image.width,
        height: image.height,
        planes: Seq::new(image.planes.len(), |c: int| image.planes[partner(c, a, b)]),
    }
}

/// The samples of two sequences are counted alike, whatever they are counted
/// up to.
pub open spec fn counts_alike<T>(val: spec_fn(T) -> real, s: Seq<T>, t: Seq<T>) -> bool {
    &&& s.len() == t.len()
    &&& forall|r: real, at: bool|
        how_many(val, s, r, at, s.len() as int) == #[trigger] how_many(
            val,
            t,
            r,
            at,
            t.len() as int,
        )
}

/// Samples one after another are counted one after another.
proof fn lemma_how_many_of_joined<T>(
    val: spec_fn(T) -> real,
    s: Seq<T>,
    t: Seq<T>,
    r: real,
    at: bool,
    n: int,
)
    requires
        0 <= n <= s.len() + t.len(),
    ensures
        n <= s.len() ==> how_many(val, s + t, r, at, n) == how_many(val, s, r, at, n),
        n >= s.len() ==> how_many(val, s + t, r, at, n) == how_many(val, s, r, at, s.len() as int)
            + how_many(val, t, r, at, n - s.len()),
    decreases n,
{
    if n > 0 {
        lemma_how_many_of_joined(val, s, t, r, at, n - 1);
        let k = n - 1;
        if k < s.len() {
            assert((s + t)[k] == s[k]);
        } else {
            assert((s + t)[k] == t[k - s.len()]);
        }
    }
}

/// Three runs of samples are counted alike in any order.
proof fn lemma_counts_of_three<T>(
    val: spec_fn(T) -> real,
    p: Seq<Seq<T>>,
    q: Seq<Seq<T>>,
    a: int,
    b: int,
)
    requires
        p.len() == 3,
        q.len() == 3,
        0 <= a < 3,
        0 <= b < 3,
        forall|c: int| 0 <= c < 3 ==> #[trigger] q[c] == p[partner(c, a, b)],
    ensures
        counts_alike(val, p[0] + p[1] + p[2], q[0] + q[1] + q[2]),
{
    let s = p[0] + p[1] + p[2];
    let t = q[0] + q[1] + q[2];
    assert(q[0] == p[partner(0, a, b)] && q[1] == p[partner(1, a, b)] && q[2] == p[partner(
        2,
        a,
        b,
    )]);
    assert forall|r: real, at: bool|
        how_many(val, s, r, at, s.len() as int) == #[trigger] how_many(
            val,
            t,
            r,
            at,
            t.len() as int,
        ) by {
        lemma_how_many_of_joined(val, p[0], p[1], r, at, (p[0] + p[1]).len() as int);
        lemma_how_many_of_joined(val, p[0] + p[1], p[2], r, at, s.len() as int);
        lemma_how_many_of_joined(val, q[0], q[1], r, at, (q[0] + q[1]).len() as int);
        lemma_how_many_of_joined(val, q[0] + q[1], q[2], r, at, t.len() as int);
    }
}

/// The samples up to one number are below a greater one.
proof fn lemma_how_many_grows<T>(val: spec_fn(T) -> real, s: Seq<T>, a: real, b: real, n: int)
    requires
        a < b,
    ensures
        how_many(val, s, a, true, n) <= how_many(val, s, b, false, n),
    decreases n,
{
    if n > 0 {
        lemma_how_many_grows(val, s, a, b, n - 1);
    }
}

/// One number stands at a rank.
proof fn lemma_one_standing<T>(
    val: spec_fn(T) -> real,
    s: Seq<T>,
    t: Seq<T>,
    k: int,
    i: int,
    j: int,
)
    requires
        counts_alike(val, s, t),
        stands_at(val, s, k, i),
        stands_at(val, t, k, j),
    ensures
        val(s[i]) == val(t[j]),
{
    let (a, b) = (val(s[i]), val(t[j]));
    let n = s.len() as int;
    assert(how_many(val, s, b, false, n) == how_many(val, t, b, false, n));
    assert(how_many(val, s, a, false, n) == how_many(val, t, a, false, n));
    assert(how_many(val, s, b, true, n) == how_many(val, t, b, true, n));
    assert(how_many(val, s, a, true, n) == how_many(val, t, a, true, n));
    if a < b {
        lemma_how_many_grows(val, s, a, b, n);
    }
    if b < a {
        lemma_how_many_grows(val, s, b, a, n);
    }
}

/// A position has one rank.
#[verifier::spinoff_prover]
proof fn lemma_one_floor(r: real, k: int, l: int)
    requires
        k as real <= r,
        r < (k + 1) as real,
        l as real <= r,
        r < (l + 1) as real,
    ensures
        k == l,
{
}

/// Samples that are counted alike have one percentile.
pub proof fn lemma_one_exact_percentile<T>(
    val: spec_fn(T) -> real,
    s: Seq<T>,
    t: Seq<T>,
    p: real,
    u: real,
    v: real,
)
    requires
        counts_alike(val, s, t),
        is_percentile_of(val, s, p, u),
        is_percentile_of(val, t, p, v),
    ensures
        u == v,
{
    let r = product(into_unit(p / (100 as real)), (s.len() - 1) as real);
    let (k, i, j) = choose|k: int, i: int, j: int| #[trigger]
        is_between_ranks(val, s, r, u, k, i, j);
    let (l, f, g) = choose|k: int, i: int, j: int| #[trigger]
        is_between_ranks(val, t, r, v, k, i, j);
    lemma_one_floor(r, k, l);
    lemma_one_standing(val, s, t, k, i, f);
    if r != k as real {
        lemma_one_standing(val, s, t, k + 1, j, g);
    }
}

/// Samples that are counted alike have one median.
proof fn lemma_one_exact_median<T, A: Arithmetic<T>>(
    ops: &A,
    val: spec_fn(T) -> real,
    s: Seq<T>,
    t: Seq<T>,
    u: T,
    v: T,
)
    requires
        is_exact(ops, val),
        keys_follow(ops, val),
        counts_alike(val, s, t),
        s.len() > 0,
        is_median(ops, s, u),
        is_median(ops, t, v),
    ensures
        val(u) == val(v),
{
    let n = s.len() as int;
    lemma_median_is_middle(ops, val, s, u);
    lemma_median_is_middle(ops, val, t, v);
    let (i, j) = choose|i: int, j: int| #[trigger]
        stands_at(val, s, (n - 1) / 2, i) && #[trigger] stands_at(val, s, n / 2, j) && (2 as real)
            * val(u) == val(s[i]) + val(s[j]);
    let (f, g) = choose|i: int, j: int| #[trigger]
        stands_at(val, t, (n - 1) / 2, i) && #[trigger] stands_at(val, t, n / 2, j) && (2 as real)
            * val(v) == val(t[i]) + val(t[j]);
    lemma_one_standing(val, s, t, (n - 1) / 2, i, f);
    lemma_one_standing(val, s, t, n / 2, j, g);
}

/// The positive ones of the samples, in order.
pub open spec fn lit_of<T>(val: spec_fn(T) -> real, s: Seq<T>) -> Seq<T>
    decreases s.len(),
{
    if s.len() == 0 {
        Seq::empty()
    } else if val(s.last()) > 0 as real {
        lit_of(val, s.drop_last()).push(s.last())
    } else {
        lit_of(val, s.drop_last())
    }
}

/// What the flags of the positive samples pick.
pub proof fn lemma_lit_is_picked<T, A: Arithmetic<T>>(
    ops: &A,
    val: spec_fn(T) -> real,
    data: Seq<T>,
    flags: Seq<bool>,
    n: int,
)
    requires
        is_exact(ops, val),
        are_positive(ops, data, flags),
        0 <= n <= data.len(),
    ensures
        picked(data.take(n), flags) == lit_of(val, data.take(n)),
    decreases n,
{
    if n > 0 {
        lemma_lit_is_picked(ops, val, data, flags, n - 1);
        assert(data.take(n).drop_last() =~= data.take(n - 1));
        assert(decides(ops, Test::Less, whole(0), Formula::Given(data[n - 1]), flags[n - 1]));
        lemma_is_positive(ops, val, data[n - 1]);
    }
}

/// The positive samples of two runs.
proof fn lemma_lit_of_joined<T>(val: spec_fn(T) -> real, s: Seq<T>, t: Seq<T>)
    ensures
        lit_of(val, s + t) == lit_of(val, s) + lit_of(val, t),
    decreases t.len(),
{
    if t.len() == 0 {
        assert(s + t =~= s);
        assert(lit_of(val, s) + lit_of(val, t) =~= lit_of(val, s));
    } else {
        lemma_lit_of_joined(val, s, t.drop_last());
        assert((s + t).drop_last() =~= s + t.drop_last());
        assert((s + t).last() == t.last());
        if val(t.last()) > 0 as real {
            assert((lit_of(val, s) + lit_of(val, t.drop_last())).push(t.last()) =~= lit_of(val, s)
                + lit_of(val, t));
        }
    }
}

/// Exchanging channels keeps the counts of all samples.
proof fn lemma_every_sample_of_exchanged<T>(
    val: spec_fn(T) -> real,
    image: Raster<T>,
    a: int,
    b: int,
)
    requires
        image.wf(),
        image.planes.len() == 3,
        0 <= a < 3,
        0 <= b < 3,
    ensures
        exchanged(image, a, b).wf(),
        counts_alike(val, every_sample(image), every_sample(exchanged(image, a, b))),
        counts_alike(
            val,
            lit_of(val, every_sample(image)),
            lit_of(val, every_sample(exchanged(image, a, b))),
        ),
{
    let other = exchanged(image, a, b);
    let (p, q) = (image.planes, other.planes);
    lemma_counts_of_three(val, p, q, a, b);
    let lit = Seq::new(3, |c: int| lit_of(val, p[c]));
    let lits = Seq::new(3, |c: int| lit_of(val, q[c]));
    lemma_counts_of_three(val, lit, lits, a, b);
    lemma_lit_of_joined(val, p[0], p[1]);
    lemma_lit_of_joined(val, p[0] + p[1], p[2]);
    lemma_lit_of_joined(val, q[0], q[1]);
    lemma_lit_of_joined(val, q[0] + q[1], q[2]);
}

/// One curve on every sample does not tell channels apart.
proof fn lemma_exchanged_map<T, A: Arithmetic<T>>(
    ops: &A,
    f: spec_fn(T) -> Formula<T>,
    image: Raster<T>,
    a: int,
    b: int,
    out: Raster<T>,
    res: Raster<T>,
)
    requires
        is_deterministic(ops),
        image.planes.len() == 3,
        0 <= a < 3,
        0 <= b < 3,
        maps_image(ops, f, image, out),
        maps_image(ops, f, exchanged(image, a, b), res),
    ensures
        res == exchanged(out, a, b),
{
    assert forall|c: int| 0 <= c < res.planes.len() implies #[trigger] res.planes[c] == exchanged(
        out,
        a,
        b,
    ).planes[c] by {
        let d = partner(c, a, b);
        assert(maps(ops, f, image.planes[d], out.planes[d]));
        lemma_one_map(ops, f, image.planes[d], out.planes[d], res.planes[c]);
    }
    assert(res.planes =~= exchanged(out, a, b).planes);
}

/// Exchanging channels exchanges the channels of a percentile clip.
proof fn lemma_exchanged_clip<T, A: Arithmetic<T>>(
    ops: &A,
    val: spec_fn(T) -> real,
    lo_p: T,
    hi_p: T,
    image: Raster<T>,
    a: int,
    b: int,
    flat: bool,
    out: Raster<T>,
    level: bool,
    res: Raster<T>,
)
    requires
        is_deterministic(ops),
        is_exact(ops, val),
        is_faithful(val),
        keys_follow(ops, val),
        rounds_exactly(ops, val),
        image.wf(),
        image.planes.len() == 3,
        0 <= a < 3,
        0 <= b < 3,
        1 <= every_sample(image).len() <= usize::MAX,
        are_numbers(ops, every_sample(image)),
        are_numbers(ops, every_sample(exchanged(image, a, b))),
        is_percentile_clipped(ops, lo_p, hi_p, image, flat, out),
        is_percentile_clipped(ops, lo_p, hi_p, exchanged(image, a, b), level, res),
    ensures
        flat == level,
        res == exchanged(out, a, b),
{
    let other = exchanged(image, a, b);
    let (low, high, range) = choose|low: T, high: T, range: T| #[trigger]
        is_clipped_by(ops, lo_p, hi_p, image, low, high, range, flat, out);
    let (least, most, width) = choose|low: T, high: T, range: T| #[trigger]
        is_clipped_by(ops, lo_p, hi_p, other, low, high, range, level, res);
    lemma_every_sample_of_exchanged(val, image, a, b);
    lemma_every_sample(image);
    lemma_every_sample(other);
    let (s, t) = (every_sample(image), every_sample(other));
    lemma_percentiles_are_exact(ops, val, s, lo_p, hi_p, low, high);
    lemma_percentiles_are_exact(ops, val, t, lo_p, hi_p, least, most);
    lemma_one_exact_percentile(val, s, t, val(lo_p), val(low), val(least));
    lemma_one_exact_percentile(val, s, t, val(hi_p), val(high), val(most));
    lemma_one_value(ops, Formula::Given(high).minus(Formula::Given(low)), range, width);
    lemma_one_decision(ops, Test::Equal, Formula::Given(range), whole(0), flat, level);
    if !flat {
        lemma_exchanged_map(ops, rescaled(low, range), image, a, b, out, res);
    }
}

/// Exchanging channels exchanges the channels of a statistical stretch.
proof fn lemma_exchanged_statistical<T, A: Arithmetic<T>>(
    ops: &A,
    val: spec_fn(T) -> real,
    target: T,
    lo_p: T,
    hi_p: T,
    image: Raster<T>,
    a: int,
    b: int,
    out: Raster<T>,
    res: Raster<T>,
)
    requires
        is_deterministic(ops),
        is_exact(ops, val),
        is_faithful(val),
        keys_follow(ops, val),
        rounds_exactly(ops, val),
        image.wf(),
        image.planes.len() == 3,
        0 <= a < 3,
        0 <= b < 3,
        1 <= every_sample(image).len() <= usize::MAX,
        are_numbers(ops, every_sample(image)),
        are_numbers(ops, every_sample(exchanged(image, a, b))),
        is_statistical_stretched(ops, target, lo_p, hi_p, image, out),
        is_statistical_stretched(ops, target, lo_p, hi_p, exchanged(image, a, b), res),
    ensures
        res == exchanged(out, a, b),
{
    let other = exchanged(image, a, b);
    let (flat, clipped) = choose|flat: bool, clipped: Raster<T>| #[trigger]
        is_percentile_clipped(ops, lo_p, hi_p, image, flat, clipped) && if flat {
            out == clipped
        } else {
            exists|flags: Seq<bool>, median: T, apart: bool, gamma: T| #[trigger]
                is_gamma_corrected(ops, target, clipped, flags, median, apart, gamma, out)
        };
    let (level, cut) = choose|flat: bool, clipped: Raster<T>| #[trigger]
        is_percentile_clipped(ops, lo_p, hi_p, other, flat, clipped) && if flat {
            res == clipped
        } else {
            exists|flags: Seq<bool>, median: T, apart: bool, gamma: T| #[trigger]
                is_gamma_corrected(ops, target, clipped, flags, median, apart, gamma, res)
        };
    lemma_exchanged_clip(ops, val, lo_p, hi_p, image, a, b, flat, clipped, level, cut);
    if !flat {
        let (flags, median, apart, gamma) = choose|
            flags: Seq<bool>,
            median: T,
            apart: bool,
            gamma: T,
        | #[trigger]
            is_gamma_corrected(ops, target, clipped, flags, median, apart, gamma, out);
        let (marks, middle, off, power) = choose|
            flags: Seq<bool>,
            median: T,
            apart: bool,
            gamma: T,
        | #[trigger]
            is_gamma_corrected(ops, target, cut, flags, median, apart, gamma, res);
        assert(clipped.wf()) by {
            assert forall|c: int| 0 <= c < clipped.planes.len() implies (
            #[trigger] clipped.planes[c]).len() == clipped.width * clipped.height by {
                assert(image.planes[c].len() == image.width * image.height);
            }
        }
        lemma_every_sample_of_exchanged(val, clipped, a, b);
        lemma_every_sample(clipped);
        lemma_every_sample(cut);
        let (s, t) = (every_sample(clipped), every_sample(cut));
        lemma_lit_is_picked(ops, val, s, flags, s.len() as int);
        lemma_lit_is_picked(ops, val, t, marks, t.len() as int);
        assert(s.take(s.len() as int) =~= s);
        assert(t.take(t.len() as int) =~= t);
        if lit_of(val, s).len() != 0 {
            lemma_one_exact_median(ops, val, lit_of(val, s), lit_of(val, t), median, middle);
            lemma_one_apart(ops, median, target, apart, off);
            if apart {
                lemma_one_value(ops, gamma_for(median, target), gamma, power);
                lemma_exchanged_map(ops, gamma_of(gamma), clipped, a, b, out, res);
            }
        }
    }
}

/// The smallest residual of three channels, whichever way red and blue stand.
proof fn lemma_exchanged_residual<T, A: Arithmetic<T>>(
    ops: &A,
    val: spec_fn(T) -> real,
    s: Seq<MtfStats<T>>,
    t: Seq<MtfStats<T>>,
    k: T,
    u: T,
    v: T,
)
    requires
        is_deterministic(ops),
        is_exact(ops, val),
        s.len() == 3,
        t.len() == 3,
        t[0] == s[2],
        t[1] == s[1],
        t[2] == s[0],
        evals(ops, residual_of(s, k, 3), u),
        evals(ops, residual_of(t, k, 3), v),
    ensures
        val(u) == val(v),
{
    let rise = |m: MtfStats<T>|
        Formula::Given(m.median).minus(Formula::Given(m.p25)).plus(
            Formula::Given(k).times(Formula::Given(m.mad)),
        );
    reveal_with_fuel(residual_of, 4);
    lemma_least_of_three(ops, val, Formula::Infinity, rise(s[0]), rise(s[1]), rise(s[2]), u, v);
}

/// The smallest of three values and a start, in two orders.
proof fn lemma_least_of_three<T, A: Arithmetic<T>>(
    ops: &A,
    val: spec_fn(T) -> real,
    start: Formula<T>,
    f: Formula<T>,
    g: Formula<T>,
    h: Formula<T>,
    u: T,
    v: T,
)
    requires
        is_deterministic(ops),
        is_exact(ops, val),
        evals(ops, start.least(f).least(g).least(h), u),
        evals(ops, start.least(h).least(g).least(f), v),
    ensures
        val(u) == val(v),
{
    let (a, x) = choose|a: T, x: T|
        evals(ops, start.least(f).least(g), a) && evals(ops, h, x) && #[trigger] binary_answers(
            ops,
            Binary::Least,
            a,
            x,
            u,
        );
    let (b, y) = choose|b: T, y: T|
        evals(ops, start.least(f), b) && evals(ops, g, y) && #[trigger] binary_answers(
            ops,
            Binary::Least,
            b,
            y,
            a,
        );
    let (c, z) = choose|c: T, z: T|
        evals(ops, start, c) && evals(ops, f, z) && #[trigger] binary_answers(
            ops,
            Binary::Least,
            c,
            z,
            b,
        );
    let (d, p) = choose|d: T, p: T|
        evals(ops, start.least(h).least(g), d) && evals(ops, f, p) && #[trigger] binary_answers(
            ops,
            Binary::Least,
            d,
            p,
            v,
        );
    let (e, q) = choose|e: T, q: T|
        evals(ops, start.least(h), e) && evals(ops, g, q) && #[trigger] binary_answers(
            ops,
            Binary::Least,
            e,
            q,
            d,
        );
    let (o, r) = choose|o: T, r: T|
        evals(ops, start, o) && evals(ops, h, r) && #[trigger] binary_answers(
            ops,
            Binary::Least,
            o,
            r,
            e,
        );
    lemma_one_value(ops, start, c, o);
    lemma_one_value(ops, f, z, p);
    lemma_one_value(ops, g, y, q);
    lemma_one_value(ops, h, x, r);
}

/// The largest of three samples, whichever way the outer ones stand.
proof fn lemma_exchanged_largest<T, A: Arithmetic<T>>(
    ops: &A,
    val: spec_fn(T) -> real,
    s: Seq<T>,
) -> (r: real)
    requires
        is_exact(ops, val),
        s.len() == 3,
    ensures
        denotes(ops, val, largest_of(s, 3), r),
        denotes(ops, val, largest_of(seq![s[2], s[1], s[0]], 3), r),
{
    let t = seq![s[2], s[1], s[0]];
    reveal_with_fuel(largest_of, 4);
    let (x, y, z) = (val(s[0]), val(s[1]), val(s[2]));
    lemma_exact_whole(ops, val, 0);
    let zero = 0u64 as int as real;
    let (a, b, c) = (Formula::Given(s[0]), Formula::Given(s[1]), Formula::Given(s[2]));
    let r = greater(greater(greater(zero, x), y), z);
    lemma_exact_most(ops, val, whole(0), a, zero, x);
    lemma_exact_most(ops, val, whole(0).most(a), b, greater(zero, x), y);
    lemma_exact_most(ops, val, whole(0).most(a).most(b), c, greater(greater(zero, x), y), z);
    lemma_exact_most(ops, val, whole(0), c, zero, z);
    lemma_exact_most(ops, val, whole(0).most(c), b, greater(zero, z), y);
    lemma_exact_most(ops, val, whole(0).most(c).most(b), a, greater(greater(zero, z), y), x);
    assert(largest_of(s, 3) == whole(0).most(a).most(b).most(c));
    assert(largest_of(t, 3) == whole(0).most(c).most(b).most(a));
    r
}

/// The greater of two numbers.
pub open spec fn greater(a: real, b: real) -> real {
    if a < b {
        b
    } else {
        a
    }
}

/// The larger of two values.
pub proof fn lemma_exact_most<T, A: Arithmetic<T>>(
    ops: &A,
    val: spec_fn(T) -> real,
    f: Formula<T>,
    g: Formula<T>,
    a: real,
    b: real,
)
    requires
        is_exact(ops, val),
        denotes(ops, val, f, a),
        denotes(ops, val, g, b),
    ensures
        denotes(ops, val, f.most(g), greater(a, b)),
{
    assert forall|v: T| #[trigger] evals(ops, f.most(g), v) implies val(v) == greater(a, b) by {
        let (x, y) = choose|x: T, y: T|
            evals(ops, f, x) && evals(ops, g, y) && #[trigger] binary_answers(
                ops,
                Binary::Most,
                x,
                y,
                v,
            );
    }
}

/// Exchanging red and blue exchanges the channels of a linked stretch.
proof fn lemma_exchanged_linked<T, A: Arithmetic<T>>(
    ops: &A,
    val: spec_fn(T) -> real,
    bg_percent: T,
    sigma: T,
    image: Raster<T>,
    out: Raster<T>,
    res: Raster<T>,
)
    requires
        is_deterministic(ops),
        is_exact(ops, val),
        is_faithful(val),
        image.wf(),
        image.planes.len() == 3,
        is_mtf_stretched(ops, bg_percent, sigma, true, image, out),
        is_mtf_stretched(ops, bg_percent, sigma, true, exchanged(image, 0, 2), res),
    ensures
        res == exchanged(out, 0, 2),
{
    let other = exchanged(image, 0, 2);
    let (shadows, scale, midtone) = choose|shadows: Seq<T>, scale: T, midtone: T| #[trigger]
        is_linked_solution(ops, image.planes, bg_percent, sigma, shadows, scale, midtone)
            && shadows.len() == 3 && applies_to_image(ops, image, shadows, scale, midtone, out);
    let (shades, factor, tone) = choose|shadows: Seq<T>, scale: T, midtone: T| #[trigger]
        is_linked_solution(ops, other.planes, bg_percent, sigma, shadows, scale, midtone)
            && shadows.len() == 3 && applies_to_image(ops, other, shadows, scale, midtone, res);
    let (stats, k, residual, mapped, flags, median) = choose|
        stats: Seq<MtfStats<T>>,
        k: T,
        residual: T,
        mapped: Seq<T>,
        flags: Seq<bool>,
        median: T,
    | #[trigger]
        is_linked_solution_by(
            ops,
            image.planes,
            bg_percent,
            sigma,
            stats,
            k,
            residual,
            mapped,
            flags,
            median,
            shadows,
            scale,
            midtone,
        );
    let (others, l, rest, shaded, marks, middle) = choose|
        stats: Seq<MtfStats<T>>,
        k: T,
        residual: T,
        mapped: Seq<T>,
        flags: Seq<bool>,
        median: T,
    | #[trigger]
        is_linked_solution_by(
            ops,
            other.planes,
            bg_percent,
            sigma,
            stats,
            k,
            residual,
            mapped,
            flags,
            median,
            shades,
            factor,
            tone,
        );
    assert forall|c: int| 0 <= c < 3 implies #[trigger] others[c] == stats[partner(c, 0, 2)] by {
        lemma_one_linked_stats(ops, other.planes[c], stats[partner(c, 0, 2)], others[c]);
    }
    assert(others[0] == stats[2] && others[1] == stats[1] && others[2] == stats[0]);
    lemma_one_value(ops, Formula::Given(sigma).times(Formula::Ratio(14_826, 10_000)), k, l);
    lemma_exchanged_residual(ops, val, stats, others, k, residual, rest);
    assert(residual == rest);
    assert forall|c: int| 0 <= c < 3 implies #[trigger] shades[c] == shadows[partner(c, 0, 2)] by {
        let d = partner(c, 0, 2);
        lemma_one_value(
            ops,
            Formula::Given(others[c].median).minus(Formula::Given(rest)).most(whole(0)),
            shades[c],
            shadows[d],
        );
    }
    assert(shades =~= seq![shadows[2], shadows[1], shadows[0]]);
    let r = lemma_exchanged_largest(ops, val, shadows);
    lemma_same_scale(ops, val, shadows, shades, r, scale, factor);
    assert(scale == factor);
    lemma_one_map(ops, shadowed(shadows[1], scale), image.planes[1], mapped, shaded);
    lemma_one_positive(ops, mapped, flags, marks);
    lemma_one_median(ops, picked(mapped, flags), median, middle);
    lemma_one_midtone(ops, median, bg_percent, midtone, tone);
    assert forall|c: int| 0 <= c < res.planes.len() implies #[trigger] res.planes[c] == exchanged(
        out,
        0,
        2,
    ).planes[c] by {
        let d = partner(c, 0, 2);
        assert(shades[c] == shadows[d]);
        lemma_one_application(
            ops,
            image.planes[d],
            shadows[d],
            scale,
            midtone,
            out.planes[d],
            res.planes[c],
        );
    }
    assert(res.planes =~= exchanged(out, 0, 2).planes);
}

/// The rescale of two sets of shadows with one maximum.
proof fn lemma_same_scale<T, A: Arithmetic<T>>(
    ops: &A,
    val: spec_fn(T) -> real,
    s: Seq<T>,
    t: Seq<T>,
    r: real,
    u: T,
    v: T,
)
    requires
        is_deterministic(ops),
        is_exact(ops, val),
        is_faithful(val),
        denotes(ops, val, largest_of(s, 3), r),
        denotes(ops, val, largest_of(t, 3), r),
        evals(
            ops,
            whole(1).over(whole(1).minus(largest_of(s, 3)).most(Formula::Ratio(1, 1_000_000))),
            u,
        ),
        evals(
            ops,
            whole(1).over(whole(1).minus(largest_of(t, 3)).most(Formula::Ratio(1, 1_000_000))),
            v,
        ),
    ensures
        u == v,
{
    let tiny = Formula::<T>::Ratio(1, 1_000_000);
    let e = (1u64 as int as real) / (1_000_000u64 as int as real);
    lemma_exact_ratio(ops, val, 1, 1_000_000);
    lemma_exact_whole(ops, val, 1);
    let one = 1u64 as int as real;
    lemma_exact_binary(ops, val, Binary::Minus, whole(1), largest_of(s, 3), one, r);
    lemma_exact_binary(ops, val, Binary::Minus, whole(1), largest_of(t, 3), one, r);
    let f = whole(1).minus(largest_of(s, 3)).most(tiny);
    let g = whole(1).minus(largest_of(t, 3)).most(tiny);
    lemma_exact_most(ops, val, whole(1).minus(largest_of(s, 3)), tiny, one - r, e);
    lemma_exact_most(ops, val, whole(1).minus(largest_of(t, 3)), tiny, one - r, e);
    let (x, y) = choose|x: T, y: T|
        evals(ops, whole(1), x) && evals(ops, f, y) && #[trigger] binary_answers(
            ops,
            Binary::Over,
            x,
            y,
            u,
        );
    let (p, q) = choose|x: T, y: T|
        evals(ops, whole(1), x) && evals(ops, g, y) && #[trigger] binary_answers(
            ops,
            Binary::Over,
            x,
            y,
            v,
        );
    assert(y == q);
    assert(x == p);
    let h = Formula::Given(x).over(Formula::Given(y));
    assert(evals(ops, Formula::Given(x), x) && evals(ops, Formula::Given(y), y));
    assert(evals(ops, h, u));
    assert(evals(ops, h, v));
    lemma_one_value(ops, h, u, v);
}

/// Exchanging channels leaves numbers numbers.
proof fn lemma_exchanged_numbers<T, A: Arithmetic<T>>(ops: &A, image: Raster<T>, a: int, b: int)
    requires
        image.wf(),
        image.planes.len() == 3,
        0 <= a < 3,
        0 <= b < 3,
        are_numbers(ops, every_sample(image)),
    ensures
        are_numbers(ops, every_sample(exchanged(image, a, b))),
{
    let other = exchanged(image, a, b);
    let t = every_sample(other);
    assert forall|k: int, r: bool|
        0 <= k < t.len() && #[trigger] call_ensures(A::is_nan, (ops, t[k]), r) implies !r by {
        let (c, i) = lemma_one_of_every_is_sample(other, k);
        let l = lemma_sample_is_one_of_every(image, partner(c, a, b), i);
        assert(call_ensures(A::is_nan, (ops, every_sample(image)[l]), r));
    }
}

/// Exchanging channels exchanges the channels of a stretch of normalized data.
/// A linked midtones stretch has its midtone from green, which stays where it
/// is; the others take any two channels.
pub proof fn lemma_stretch_of_exchanged<T, A: Arithmetic<T>>(
    ops: &A,
    val: spec_fn(T) -> real,
    algorithm: StretchAlgorithm<T>,
    detect: bool,
    image: Raster<T>,
    a: int,
    b: int,
    out: Raster<T>,
    res: Raster<T>,
)
    requires
        is_deterministic(ops),
        is_exact(ops, val),
        is_faithful(val),
        keys_follow(ops, val),
        rounds_exactly(ops, val),
        image.wf(),
        image.planes.len() == 3,
        0 <= a < 3,
        0 <= b < 3,
        algorithm matches StretchAlgorithm::Mtf { bg_percent, sigma, linked } ==> (linked ==> a == 0
            && b == 2),
        1 <= every_sample(image).len() <= usize::MAX,
        are_numbers(ops, every_sample(image)),
        is_stretched(
            ops,
            (StretchOptions { algorithm, autocrop: detect, pre_normalized: true }),
            image,
            out,
        ),
        is_stretched(
            ops,
            (StretchOptions { algorithm, autocrop: detect, pre_normalized: true }),
            exchanged(image, a, b),
            res,
        ),
    ensures
        res == exchanged(out, a, b),
{
    let other = exchanged(image, a, b);
    lemma_exchanged_numbers(ops, image, a, b);
    assert(is_stretched_by(ops, algorithm, image, out));
    assert(is_stretched_by(ops, algorithm, other, res));
    match algorithm {
        StretchAlgorithm::Mtf { bg_percent, sigma, linked } => {
            if linked {
                lemma_exchanged_linked(ops, val, bg_percent, sigma, image, out, res);
            } else {
                assert forall|c: int| 0 <= c < res.planes.len() implies #[trigger] res.planes[c]
                    == exchanged(out, a, b).planes[c] by {
                    let d = partner(c, a, b);
                    lemma_one_stretched_channel(
                        ops,
                        bg_percent,
                        sigma,
                        image.planes[d],
                        out.planes[d],
                        res.planes[c],
                    );
                }
                assert(res.planes =~= exchanged(out, a, b).planes);
            }
        },
        StretchAlgorithm::Arcsinh { factor } => {
            let (s, d) = choose|scale: T, denominator: T|
                evals(ops, whole(1).over(Formula::Given(factor)), scale) && evals(
                    ops,
                    Formula::Given(scale).apply(Unary::Asinh),
                    denominator,
                ) && #[trigger] maps_image(ops, arcsinh_of(scale, denominator), image, out);
            let (t, e) = choose|scale: T, denominator: T|
                evals(ops, whole(1).over(Formula::Given(factor)), scale) && evals(
                    ops,
                    Formula::Given(scale).apply(Unary::Asinh),
                    denominator,
                ) && #[trigger] maps_image(ops, arcsinh_of(scale, denominator), other, res);
            lemma_one_value(ops, whole(1).over(Formula::Given(factor)), s, t);
            lemma_one_value(ops, Formula::Given(s).apply(Unary::Asinh), d, e);
            lemma_exchanged_map(ops, arcsinh_of(s, d), image, a, b, out, res);
        },
        StretchAlgorithm::Log { factor } => {
            let (s, d) = choose|offset: T, denominator: T|
                evals(ops, Formula::Given(factor).times(Formula::Ratio(1, 100)), offset) && evals(
                    ops,
                    whole(1).over(Formula::Given(offset)).apply(Unary::Ln1p),
                    denominator,
                ) && #[trigger] maps_image(ops, log_of(offset, denominator), image, out);
            let (t, e) = choose|offset: T, denominator: T|
                evals(ops, Formula::Given(factor).times(Formula::Ratio(1, 100)), offset) && evals(
                    ops,
                    whole(1).over(Formula::Given(offset)).apply(Unary::Ln1p),
                    denominator,
                ) && #[trigger] maps_image(ops, log_of(offset, denominator), other, res);
            lemma_one_value(ops, Formula::Given(factor).times(Formula::Ratio(1, 100)), s, t);
            lemma_one_value(ops, whole(1).over(Formula::Given(s)).apply(Unary::Ln1p), d, e);
            lemma_exchanged_map(ops, log_of(s, d), image, a, b, out, res);
        },
        StretchAlgorithm::Linear { low_percentile, high_percentile } => {
            let flat = choose|flat: bool| #[trigger]
                is_percentile_clipped(ops, low_percentile, high_percentile, image, flat, out);
            let level = choose|flat: bool| #[trigger]
                is_percentile_clipped(ops, low_percentile, high_percentile, other, flat, res);
            lemma_exchanged_clip(
                ops,
                val,
                low_percentile,
                high_percentile,
                image,
                a,
                b,
                flat,
                out,
                level,
                res,
            );
        },
        StretchAlgorithm::Statistical { target_median, low_percentile, high_percentile } => {
            lemma_exchanged_statistical(
                ops,
                val,
                target_median,
                low_percentile,
                high_percentile,
                image,
                a,
                b,
                out,
                res,
            );
        },
    }
}

} // verus!
