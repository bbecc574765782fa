//! What a change of unit does to the stages.
//!
//! A relation between samples stands for a change of unit: the second sample is
//! the first one in the other unit. Binary floating point is such an arithmetic
//! for a change by a power of two, as long as no exponent leaves its range.

use super::answers::{is_deterministic, lemma_one_index, lemma_one_value};
use crate::arith::{
    Arithmetic, Binary, Formula, Test, Unary, binary_answers, decides, evals, test_answers, whole,
};
use crate::frame::Raster;
use crate::plane::picked;
use crate::stats::{
    are_percentiles, count_before, has_rank, interpolates, is_median, is_median_by,
    is_percentile_by, keyed, numbers, percentiles_of_numbers, position, precedes, within,
};
use vstd::prelude::*;

verus! {

// ---------------------------------------------------------------------------
// Relations between samples
// ---------------------------------------------------------------------------

/// Zero is related to itself.
pub open spec fn relates_zero<T, A: Arithmetic<T>>(ops: &A, rel: spec_fn(T, T) -> bool) -> bool {
    forall|u: T, v: T| #[trigger]
        evals(ops, whole(0), u) && #[trigger] evals(ops, whole(0), v) ==> rel(u, v)
}

/// Sums and differences of related samples are related.
pub open spec fn relates_sums<T, A: Arithmetic<T>>(ops: &A, rel: spec_fn(T, T) -> bool) -> bool {
    forall|op: Binary, x: T, y: T, u: T, p: T, q: T, v: T| #[trigger]
        binary_answers(ops, op, x, y, u) && #[trigger] binary_answers(ops, op, p, q, v) && (op
            == Binary::Plus || op == Binary::Minus) && rel(x, p) && rel(y, q) ==> rel(u, v)
}

/// A number times two related samples gives related samples.
pub open spec fn relates_products<T, A: Arithmetic<T>>(
    ops: &A,
    rel: spec_fn(T, T) -> bool,
) -> bool {
    &&& forall|x: T, y: T, u: T, q: T, v: T| #[trigger]
        binary_answers(ops, Binary::Times, x, y, u) && #[trigger] binary_answers(
            ops,
            Binary::Times,
            x,
            q,
            v,
        ) && rel(y, q) ==> rel(u, v)
    &&& forall|x: T, y: T, u: T, p: T, v: T| #[trigger]
        binary_answers(ops, Binary::Times, x, y, u) && #[trigger] binary_answers(
            ops,
            Binary::Times,
            p,
            y,
            v,
        ) && rel(x, p) ==> rel(u, v)
}

/// Two related samples over a number are related.
pub open spec fn relates_shares<T, A: Arithmetic<T>>(ops: &A, rel: spec_fn(T, T) -> bool) -> bool {
    forall|x: T, y: T, u: T, p: T, v: T| #[trigger]
        binary_answers(ops, Binary::Over, x, y, u) && #[trigger] binary_answers(
            ops,
            Binary::Over,
            p,
            y,
            v,
        ) && rel(x, p) ==> rel(u, v)
}

/// The relation is kept by what is linear in the samples.
pub open spec fn is_linear<T, A: Arithmetic<T>>(ops: &A, rel: spec_fn(T, T) -> bool) -> bool {
    &&& relates_zero(ops, rel)
    &&& relates_sums(ops, rel)
    &&& relates_products(ops, rel)
    &&& relates_shares(ops, rel)
}

/// Related samples are in the same order, by the tests and by the keys.
pub open spec fn is_ordered<T, A: Arithmetic<T>>(ops: &A, rel: spec_fn(T, T) -> bool) -> bool {
    &&& forall|test: Test, x: T, y: T, r: bool, p: T, q: T, s: bool| #[trigger]
        test_answers(ops, test, x, y, r) && #[trigger] test_answers(ops, test, p, q, s) && rel(x, p)
            && rel(y, q) ==> r == s
    &&& forall|x: T, y: T, i: u64, j: u64, p: T, q: T, k: u64, l: u64|
        #![trigger
            call_ensures(A::order_key, (ops, x), i),
            call_ensures(A::order_key, (ops, y), j),
            call_ensures(A::order_key, (ops, p), k),
            call_ensures(A::order_key, (ops, q), l)]
        call_ensures(A::order_key, (ops, x), i) && call_ensures(A::order_key, (ops, y), j)
            && call_ensures(A::order_key, (ops, p), k) && call_ensures(A::order_key, (ops, q), l)
            && rel(x, p) && rel(y, q) ==> (i < j) == (k < l)
}

/// The samples of two sequences are related, place by place.
pub open spec fn all_related<T>(rel: spec_fn(T, T) -> bool, s: Seq<T>, t: Seq<T>) -> bool {
    &&& s.len() == t.len()
    &&& forall|i: int| 0 <= i < s.len() ==> rel(#[trigger] s[i], t[i])
}

/// The samples of two images of one shape are related, place by place.
pub open spec fn are_related_images<T>(
    rel: spec_fn(T, T) -> bool,
    image: Raster<T>,
    other: Raster<T>,
) -> bool {
    &&& image.same_shape(other)
    &&& forall|c: int|
        0 <= c < image.planes.len() ==> all_related(
            rel,
            #[trigger] image.planes[c],
            other.planes[c],
        )
}

/// The values of two formulas are related.
pub open spec fn relates<T, A: Arithmetic<T>>(
    ops: &A,
    rel: spec_fn(T, T) -> bool,
    f: Formula<T>,
    g: Formula<T>,
) -> bool {
    forall|u: T, v: T| #[trigger] evals(ops, f, u) && #[trigger] evals(ops, g, v) ==> rel(u, v)
}

/// A sum or a difference of related formulas.
pub proof fn lemma_related_sum<T, A: Arithmetic<T>>(
    ops: &A,
    rel: spec_fn(T, T) -> bool,
    op: Binary,
    a: Formula<T>,
    b: Formula<T>,
    c: Formula<T>,
    d: Formula<T>,
)
    requires
        is_linear(ops, rel),
        op == Binary::Plus || op == Binary::Minus,
        relates(ops, rel, a, c),
        relates(ops, rel, b, d),
    ensures
        relates(ops, rel, a.with(op, b), c.with(op, d)),
{
    assert forall|u: T, v: T| #[trigger]
        evals(ops, a.with(op, b), u) && #[trigger] evals(ops, c.with(op, d), v) implies rel(
        u,
        v,
    ) by {
        let (x, y) = choose|x: T, y: T|
            evals(ops, a, x) && evals(ops, b, y) && #[trigger] binary_answers(ops, op, x, y, u);
        let (p, q) = choose|x: T, y: T|
            evals(ops, c, x) && evals(ops, d, y) && #[trigger] binary_answers(ops, op, x, y, v);
        assert(rel(x, p) && rel(y, q));
    }
}

/// A number times related formulas.
pub proof fn lemma_related_product<T, A: Arithmetic<T>>(
    ops: &A,
    rel: spec_fn(T, T) -> bool,
    a: Formula<T>,
    b: Formula<T>,
    d: Formula<T>,
)
    requires
        is_deterministic(ops),
        is_linear(ops, rel),
        relates(ops, rel, b, d),
    ensures
        relates(ops, rel, a.times(b), a.times(d)),
{
    assert forall|u: T, v: T| #[trigger]
        evals(ops, a.times(b), u) && #[trigger] evals(ops, a.times(d), v) implies rel(u, v) by {
        let (x, y) = choose|x: T, y: T|
            evals(ops, a, x) && evals(ops, b, y) && #[trigger] binary_answers(
                ops,
                Binary::Times,
                x,
                y,
                u,
            );
        let (p, q) = choose|x: T, y: T|
            evals(ops, a, x) && evals(ops, d, y) && #[trigger] binary_answers(
                ops,
                Binary::Times,
                x,
                y,
                v,
            );
        lemma_one_value(ops, a, x, p);
        assert(rel(y, q));
    }
}

/// Related formulas times or over a number.
pub proof fn lemma_related_multiple<T, A: Arithmetic<T>>(
    ops: &A,
    rel: spec_fn(T, T) -> bool,
    op: Binary,
    a: Formula<T>,
    c: Formula<T>,
    b: Formula<T>,
)
    requires
        is_deterministic(ops),
        is_linear(ops, rel),
        op == Binary::Times || op == Binary::Over,
        relates(ops, rel, a, c),
    ensures
        relates(ops, rel, a.with(op, b), c.with(op, b)),
{
    assert forall|u: T, v: T| #[trigger]
        evals(ops, a.with(op, b), u) && #[trigger] evals(ops, c.with(op, b), v) implies rel(
        u,
        v,
    ) by {
        let (x, y) = choose|x: T, y: T|
            evals(ops, a, x) && evals(ops, b, y) && #[trigger] binary_answers(ops, op, x, y, u);
        let (p, q) = choose|x: T, y: T|
            evals(ops, c, x) && evals(ops, b, y) && #[trigger] binary_answers(ops, op, x, y, v);
        lemma_one_value(ops, b, y, q);
        assert(rel(x, p));
    }
}

/// Questions about related formulas have the same answer.
pub proof fn lemma_related_decision<T, A: Arithmetic<T>>(
    ops: &A,
    rel: spec_fn(T, T) -> bool,
    test: Test,
    a: Formula<T>,
    b: Formula<T>,
    r: bool,
    c: Formula<T>,
    d: Formula<T>,
    s: bool,
)
    requires
        is_ordered(ops, rel),
        relates(ops, rel, a, c),
        relates(ops, rel, b, d),
        decides(ops, test, a, b, r),
        decides(ops, test, c, d, s),
    ensures
        r == s,
{
    let (x, y) = choose|x: T, y: T|
        evals(ops, a, x) && evals(ops, b, y) && #[trigger] test_answers(ops, test, x, y, r);
    let (p, q) = choose|x: T, y: T|
        evals(ops, c, x) && evals(ops, d, y) && #[trigger] test_answers(ops, test, x, y, s);
    assert(rel(x, p) && rel(y, q));
}

// ---------------------------------------------------------------------------
// Order statistics
// ---------------------------------------------------------------------------

/// The keys of two sequences are in the same order.
pub open spec fn same_order(s: Seq<u64>, t: Seq<u64>) -> bool {
    &&& s.len() == t.len()
    &&& forall|i: int, j: int|
        0 <= i < s.len() && 0 <= j < s.len() ==> (#[trigger] s[i] < #[trigger] s[j]) == (t[i]
            < t[j])
}

/// Related samples have keys in the same order.
proof fn lemma_keys_in_order<T, A: Arithmetic<T>>(
    ops: &A,
    rel: spec_fn(T, T) -> bool,
    data: Seq<T>,
    other: Seq<T>,
    s: Seq<u64>,
    t: Seq<u64>,
)
    requires
        is_ordered(ops, rel),
        all_related(rel, data, other),
        keyed(ops, data, s),
        keyed(ops, other, t),
    ensures
        same_order(s, t),
{
    assert forall|i: int, j: int| 0 <= i < s.len() && 0 <= j < s.len() implies (#[trigger] s[i]
        < #[trigger] s[j]) == (t[i] < t[j]) by {
        assert(call_ensures(A::order_key, (ops, data[i]), s[i]));
        assert(call_ensures(A::order_key, (ops, data[j]), s[j]));
        assert(call_ensures(A::order_key, (ops, other[i]), t[i]));
        assert(call_ensures(A::order_key, (ops, other[j]), t[j]));
        assert(rel(data[i], other[i]) && rel(data[j], other[j]));
    }
}

/// Keys in the same order give the same counts.
proof fn lemma_same_count(s: Seq<u64>, t: Seq<u64>, i: int, n: int)
    requires
        same_order(s, t),
        0 <= i < s.len(),
        n <= s.len(),
    ensures
        count_before(s, i, n) == count_before(t, i, n),
    decreases n,
{
    if n > 0 {
        lemma_same_count(s, t, i, n - 1);
        assert((s[n - 1] < s[i]) == (t[n - 1] < t[i]));
        assert((s[i] < s[n - 1]) == (t[i] < t[n - 1]));
        assert(precedes(s, n - 1, i) == precedes(t, n - 1, i));
    }
}

/// Keys in the same order have a rank at the same place.
proof fn lemma_same_rank(s: Seq<u64>, t: Seq<u64>, k: int, i: int, j: int)
    requires
        same_order(s, t),
        has_rank(s, k, i),
        has_rank(t, k, j),
    ensures
        i == j,
{
    lemma_same_count(s, t, i, s.len() as int);
    super::statistics::lemma_one_rank(t, k, i, j);
}

/// Related samples have related medians.
pub proof fn lemma_related_medians<T, A: Arithmetic<T>>(
    ops: &A,
    rel: spec_fn(T, T) -> bool,
    data: Seq<T>,
    other: Seq<T>,
    u: T,
    v: T,
)
    requires
        is_deterministic(ops),
        is_linear(ops, rel),
        is_ordered(ops, rel),
        all_related(rel, data, other),
        is_median(ops, data, u),
        is_median(ops, other, v),
    ensures
        rel(u, v),
{
    if data.len() > 0 {
        let n = data.len() as int;
        let (s, lo, hi) = choose|keys: Seq<u64>, lo: int, hi: int| #[trigger]
            is_median_by(ops, data, keys, lo, hi, u);
        let (t, low, high) = choose|keys: Seq<u64>, lo: int, hi: int| #[trigger]
            is_median_by(ops, other, keys, lo, hi, v);
        lemma_keys_in_order(ops, rel, data, other, s, t);
        lemma_same_rank(s, t, n / 2, hi, high);
        assert(rel(data[hi], other[hi]));
        if n % 2 != 1 {
            lemma_same_rank(s, t, n / 2 - 1, lo, low);
            assert(rel(data[lo], other[lo]));
            let a = Formula::Given(data[lo]).plus(Formula::Given(data[hi]));
            let b = Formula::Given(other[lo]).plus(Formula::Given(other[hi]));
            lemma_related_sum(
                ops,
                rel,
                Binary::Plus,
                Formula::Given(data[lo]),
                Formula::Given(data[hi]),
                Formula::Given(other[lo]),
                Formula::Given(other[hi]),
            );
            lemma_related_product(ops, rel, Formula::Ratio(1, 2), a, b);
        }
    }
}

/// Related samples have related percentiles.
proof fn lemma_related_percentile<T, A: Arithmetic<T>>(
    ops: &A,
    rel: spec_fn(T, T) -> bool,
    data: Seq<T>,
    other: Seq<T>,
    s: Seq<u64>,
    t: Seq<u64>,
    p: T,
    u: T,
    v: T,
)
    requires
        is_deterministic(ops),
        is_linear(ops, rel),
        all_related(rel, data, other),
        same_order(s, t),
        s.len() == data.len(),
        is_percentile_by(ops, data, s, p, u),
        is_percentile_by(ops, other, t, p, v),
    ensures
        rel(u, v),
{
    let n = data.len() as int;
    let (r, below, above, i, j) = choose|r: T, below: usize, above: usize, i: int, j: int|
        evals(ops, position(p, n), r) && #[trigger] interpolates(
            ops,
            data,
            s,
            r,
            below,
            above,
            i,
            j,
            u,
        );
    let (q, lower, upper, k, l) = choose|r: T, below: usize, above: usize, i: int, j: int|
        evals(ops, position(p, n), r) && #[trigger] interpolates(
            ops,
            other,
            t,
            r,
            below,
            above,
            i,
            j,
            v,
        );
    lemma_one_value(ops, position(p, n), r, q);
    lemma_one_index(ops, Formula::Given(r).apply(Unary::Floor), below, lower);
    lemma_one_index(ops, Formula::Given(r).apply(Unary::Ceil), above, upper);
    lemma_same_rank(s, t, within(below, n) as int, i, k);
    lemma_same_rank(s, t, within(above, n) as int, j, l);
    assert(rel(data[i], other[i]) && rel(data[j], other[j]));
    let part = Formula::Given(r).minus(Formula::Count(within(below, n)));
    let (a, b) = (Formula::Given(data[i]), Formula::Given(data[j]));
    let (c, d) = (Formula::Given(other[i]), Formula::Given(other[j]));
    lemma_related_sum(ops, rel, Binary::Minus, b, a, d, c);
    lemma_related_product(ops, rel, part, b.minus(a), d.minus(c));
    lemma_related_sum(ops, rel, Binary::Plus, a, part.times(b.minus(a)), c, part.times(d.minus(c)));
}

/// Related samples are numbers alike.
pub open spec fn keeps_numbers<T, A: Arithmetic<T>>(ops: &A, rel: spec_fn(T, T) -> bool) -> bool {
    forall|x: T, p: T, r: bool, s: bool| #[trigger]
        call_ensures(A::is_nan, (ops, x), r) && #[trigger] call_ensures(A::is_nan, (ops, p), s)
            && rel(x, p) ==> r == s
}

/// The same picks of related samples are related.
pub proof fn lemma_related_picks<T>(
    rel: spec_fn(T, T) -> bool,
    data: Seq<T>,
    other: Seq<T>,
    flags: Seq<bool>,
)
    requires
        all_related(rel, data, other),
    ensures
        all_related(rel, picked(data, flags), picked(other, flags)),
    decreases data.len(),
{
    if data.len() > 0 {
        let n = data.len() - 1;
        assert(rel(data[n], other[n]));
        lemma_related_picks(rel, data.drop_last(), other.drop_last(), flags);
    }
}

/// Related samples have related pairs of percentiles.
pub proof fn lemma_related_percentiles<T, A: Arithmetic<T>>(
    ops: &A,
    rel: spec_fn(T, T) -> bool,
    data: Seq<T>,
    other: Seq<T>,
    lo_p: T,
    hi_p: T,
    low: T,
    high: T,
    lower: T,
    higher: T,
)
    requires
        is_deterministic(ops),
        is_linear(ops, rel),
        is_ordered(ops, rel),
        keeps_numbers(ops, rel),
        all_related(rel, data, other),
        are_percentiles(ops, data, lo_p, hi_p, low, high),
        are_percentiles(ops, other, lo_p, hi_p, lower, higher),
    ensures
        rel(low, lower),
        rel(high, higher),
{
    let flags = choose|flags: Seq<bool>| #[trigger]
        numbers(ops, data, flags) && percentiles_of_numbers(
            ops,
            picked(data, flags),
            lo_p,
            hi_p,
            low,
            high,
        );
    let others = choose|flags: Seq<bool>| #[trigger]
        numbers(ops, other, flags) && percentiles_of_numbers(
            ops,
            picked(other, flags),
            lo_p,
            hi_p,
            lower,
            higher,
        );
    assert forall|i: int| 0 <= i < flags.len() implies #[trigger] flags[i] == others[i] by {
        assert(call_ensures(A::is_nan, (ops, data[i]), !flags[i]));
        assert(call_ensures(A::is_nan, (ops, other[i]), !others[i]));
        assert(rel(data[i], other[i]));
    }
    assert(flags =~= others);
    lemma_related_picks(rel, data, other, flags);
    let kept = picked(data, flags);
    let held = picked(other, flags);
    if kept.len() == 1 {
        assert(rel(kept[0], held[0]));
    } else if kept.len() > 1 {
        let s = choose|keys: Seq<u64>| #[trigger]
            keyed(ops, kept, keys) && is_percentile_by(ops, kept, keys, lo_p, low)
                && is_percentile_by(ops, kept, keys, hi_p, high);
        let t = choose|keys: Seq<u64>| #[trigger]
            keyed(ops, held, keys) && is_percentile_by(ops, held, keys, lo_p, lower)
                && is_percentile_by(ops, held, keys, hi_p, higher);
        lemma_keys_in_order(ops, rel, kept, held, s, t);
        lemma_related_percentile(ops, rel, kept, held, s, t, lo_p, low, lower);
        lemma_related_percentile(ops, rel, kept, held, s, t, hi_p, high, higher);
    }
}

} // verus!
