//! What medians and percentiles are of the numbers that samples stand for.

use super::exact::{
    denotes, into_unit, is_exact, lemma_exact_binary, lemma_exact_product, lemma_exact_ratio,
    lemma_exact_unit, lemma_exact_whole,
};
use super::reals::{
    lemma_product_distributes, lemma_product_not_negative, lemma_product_of_unit, product,
};
use super::transposing::{lemma_count_and_tally, tally};
use crate::arith::{
    Arithmetic, Binary, Formula, Unary, evals, index_answers, indexes, unary_answers, whole,
};
use crate::plane::picked;
use crate::stats::{
    are_percentiles, has_rank, interpolates, is_median, is_median_by, is_percentile_by, keyed,
    numbers, percentiles_of_numbers, position, within,
};
use vstd::prelude::*;

verus! {

/// The keys order samples as the numbers that they stand for.
pub open spec fn keys_follow<T, A: Arithmetic<T>>(ops: &A, val: spec_fn(T) -> real) -> bool {
    forall|x: T, y: T, i: u64, j: u64| #[trigger]
        call_ensures(A::order_key, (ops, x), i) && #[trigger] call_ensures(
            A::order_key,
            (ops, y),
            j,
        ) ==> (i < j) == (val(x) < val(y))
}

/// Rounding to an index is exact: the index of the floor of a number is the
/// last one up to it, and that of its ceiling the first one from it on.
pub open spec fn rounds_exactly<T, A: Arithmetic<T>>(ops: &A, val: spec_fn(T) -> real) -> bool {
    &&& forall|x: T, v: T, k: usize| #[trigger]
        unary_answers(ops, Unary::Floor, x, v) && #[trigger] index_answers(ops, v, k) && 0 as real
            <= val(x) <= usize::MAX as int as real ==> k as int as real <= val(x) < (k + 1) as real
    &&& forall|x: T, v: T, k: usize| #[trigger]
        unary_answers(ops, Unary::Ceil, x, v) && #[trigger] index_answers(ops, v, k) && 0 as real
            <= val(x) <= usize::MAX as int as real ==> ((k - 1) as real) < val(x) <= k as int
            as real
}

/// Every sample is a number.
pub open spec fn are_numbers<T, A: Arithmetic<T>>(ops: &A, data: Seq<T>) -> bool {
    forall|i: int, r: bool|
        0 <= i < data.len() && #[trigger] call_ensures(A::is_nan, (ops, data[i]), r) ==> !r
}

/// How many of the first `n` samples stand for a number below `r`, or up to it
/// where `at` is set.
pub open spec fn how_many<T>(
    val: spec_fn(T) -> real,
    data: Seq<T>,
    r: real,
    at: bool,
    n: int,
) -> nat
    decreases n,
{
    if n <= 0 {
        0
    } else {
        how_many(val, data, r, at, n - 1) + if val(data[n - 1]) < r || (at && val(data[n - 1])
            == r) {
            1nat
        } else {
            0nat
        }
    }
}

/// Sample `i` stands at rank `k` in order: at most `k` samples are below it,
/// and more than `k` are up to it.
pub open spec fn stands_at<T>(val: spec_fn(T) -> real, data: Seq<T>, k: int, i: int) -> bool {
    &&& 0 <= i < data.len()
    &&& how_many(val, data, val(data[i]), false, data.len() as int) <= k
    &&& k < how_many(val, data, val(data[i]), true, data.len() as int)
}

/// Counting the keys is counting the numbers.
proof fn lemma_how_many<T, A: Arithmetic<T>>(
    ops: &A,
    val: spec_fn(T) -> real,
    data: Seq<T>,
    keys: Seq<u64>,
    i: int,
    at: bool,
    n: int,
)
    requires
        keys_follow(ops, val),
        keyed(ops, data, keys),
        0 <= i < data.len(),
        n <= data.len(),
    ensures
        tally(keys, keys[i], at, n) == how_many(val, data, val(data[i]), at, n),
    decreases n,
{
    if n > 0 {
        lemma_how_many(ops, val, data, keys, i, at, n - 1);
        assert(call_ensures(A::order_key, (ops, data[n - 1]), keys[n - 1]));
        assert(call_ensures(A::order_key, (ops, data[i]), keys[i]));
        assert((keys[n - 1] < keys[i]) == (val(data[n - 1]) < val(data[i])));
        assert((keys[i] < keys[n - 1]) == (val(data[i]) < val(data[n - 1])));
    }
}

/// The order statistic of a rank stands at that rank.
pub proof fn lemma_rank_stands<T, A: Arithmetic<T>>(
    ops: &A,
    val: spec_fn(T) -> real,
    data: Seq<T>,
    keys: Seq<u64>,
    k: int,
    i: int,
)
    requires
        keys_follow(ops, val),
        keyed(ops, data, keys),
        has_rank(keys, k, i),
    ensures
        stands_at(val, data, k, i),
{
    let n = data.len() as int;
    lemma_count_and_tally(keys, i, n);
    lemma_how_many(ops, val, data, keys, i, true, n);
    lemma_how_many(ops, val, data, keys, i, false, n);
}

/// A count is no more than there are samples, and a sample that is not counted
/// is missing from it.
proof fn lemma_how_many_at_most<T>(
    val: spec_fn(T) -> real,
    data: Seq<T>,
    r: real,
    at: bool,
    n: int,
    j: int,
)
    requires
        0 <= j,
        0 <= n,
    ensures
        how_many(val, data, r, at, n) <= n,
        j < n && !(val(data[j]) < r || (at && val(data[j]) == r)) ==> how_many(
            val,
            data,
            r,
            at,
            n,
        ) < n,
        j < n && (val(data[j]) < r || (at && val(data[j]) == r)) ==> how_many(
            val,
            data,
            r,
            at,
            n,
        ) > 0,
    decreases n,
{
    if n > 0 {
        lemma_how_many_at_most(val, data, r, at, n - 1, j);
    }
}

/// What stands at the first rank is the least of the samples, and what stands
/// at the last one the greatest.
pub proof fn lemma_ends_of_order<T>(val: spec_fn(T) -> real, data: Seq<T>, k: int, i: int, j: int)
    requires
        stands_at(val, data, k, i),
        0 <= j < data.len(),
    ensures
        k == 0 ==> val(data[i]) <= val(data[j]),
        k == data.len() - 1 ==> val(data[j]) <= val(data[i]),
{
    let n = data.len() as int;
    lemma_how_many_at_most(val, data, val(data[i]), false, n, j);
    lemma_how_many_at_most(val, data, val(data[i]), true, n, j);
}

/// The median is the mean of the two samples in the middle of the order, which
/// are one and the same for an odd count.
pub proof fn lemma_median_is_middle<T, A: Arithmetic<T>>(
    ops: &A,
    val: spec_fn(T) -> real,
    data: Seq<T>,
    m: T,
)
    requires
        is_exact(ops, val),
        keys_follow(ops, val),
        data.len() > 0,
        is_median(ops, data, m),
    ensures
        exists|i: int, j: int| #[trigger]
            stands_at(val, data, (data.len() - 1) / 2, i) && #[trigger] stands_at(
                val,
                data,
                data.len() as int / 2,
                j,
            ) && (2 as real) * val(m) == val(data[i]) + val(data[j]),
{
    let n = data.len() as int;
    let (keys, lo, hi) = choose|keys: Seq<u64>, lo: int, hi: int| #[trigger]
        is_median_by(ops, data, keys, lo, hi, m);
    lemma_rank_stands(ops, val, data, keys, n / 2, hi);
    if n % 2 == 1 {
        assert((n - 1) / 2 == n / 2);
        assert(stands_at(val, data, (n - 1) / 2, hi));
    } else {
        assert((n - 1) / 2 == n / 2 - 1);
        lemma_rank_stands(ops, val, data, keys, n / 2 - 1, lo);
        let (f, g) = (Formula::Given(data[lo]), Formula::Given(data[hi]));
        let (a, b) = (val(data[lo]), val(data[hi]));
        lemma_exact_binary(ops, val, Binary::Plus, f, g, a, b);
        lemma_exact_ratio(ops, val, 1, 2);
        let half = (1u64 as int as real) / (2u64 as int as real);
        lemma_exact_product(ops, val, Formula::Ratio(1, 2), f.plus(g), half, a + b);
        lemma_half(half, a + b);
        assert(stands_at(val, data, (n - 1) / 2, lo));
    }
}

/// Twice the half of a number.
proof fn lemma_half(half: real, s: real)
    requires
        half == (1u64 as int as real) / (2u64 as int as real),
    ensures
        (2 as real) * product(half, s) == s,
{
    reveal(product);
    assert((2 as real) * (half * s) == s) by (nonlinear_arith)
        requires
            half == (1u64 as int as real) / (2u64 as int as real),
    ;
}

/// The median of equal samples is their value.
pub proof fn lemma_median_of_equal<T, A: Arithmetic<T>>(
    ops: &A,
    val: spec_fn(T) -> real,
    data: Seq<T>,
    m: T,
    b: real,
)
    requires
        is_exact(ops, val),
        keys_follow(ops, val),
        data.len() > 0,
        is_median(ops, data, m),
        forall|i: int| 0 <= i < data.len() ==> val(#[trigger] data[i]) == b,
    ensures
        val(m) == b,
{
    lemma_median_is_middle(ops, val, data, m);
}

/// `v` is the number at position `r` in the order of the samples: a sample at a
/// whole position, and between two of them on the straight line that joins
/// their samples.
pub open spec fn is_between_ranks<T>(
    val: spec_fn(T) -> real,
    data: Seq<T>,
    r: real,
    v: real,
    k: int,
    i: int,
    j: int,
) -> bool {
    &&& k as real <= r < (k + 1) as real
    &&& stands_at(val, data, k, i)
    &&& if r == k as real {
        v == val(data[i])
    } else {
        &&& stands_at(val, data, k + 1, j)
        &&& v == val(data[i]) + product(r - k as real, val(data[j]) - val(data[i]))
    }
}

/// `v` is percentile `p` of the numbers that the samples stand for.
pub open spec fn is_percentile_of<T>(
    val: spec_fn(T) -> real,
    data: Seq<T>,
    p: real,
    v: real,
) -> bool {
    exists|k: int, i: int, j: int| #[trigger]
        is_between_ranks(
            val,
            data,
            product(into_unit(p / (100 as real)), (data.len() - 1) as real),
            v,
            k,
            i,
            j,
        )
}

/// Samples that are numbers are all picked.
proof fn lemma_all_picked<T, A: Arithmetic<T>>(ops: &A, data: Seq<T>, flags: Seq<bool>, n: int)
    requires
        are_numbers(ops, data),
        numbers(ops, data, flags),
        0 <= n <= data.len(),
    ensures
        picked(data.take(n), flags) == data.take(n),
    decreases n,
{
    if n > 0 {
        lemma_all_picked(ops, data, flags, n - 1);
        assert(data.take(n).drop_last() =~= data.take(n - 1));
        assert(call_ensures(A::is_nan, (ops, data[n - 1]), !flags[n - 1]));
        assert(flags[n - 1]);
        assert(data.take(n) =~= data.take(n - 1).push(data[n - 1]));
    } else {
        assert(data.take(0) =~= Seq::empty());
    }
}

/// A share of a whole number.
pub proof fn lemma_position_in_range(u: real, n: int)
    requires
        0 as real <= u <= 1 as real,
        n >= 1,
    ensures
        0 as real <= product(u, (n - 1) as real) <= (n - 1) as real,
{
    let m = (n - 1) as real;
    lemma_product_not_negative(u, m);
    lemma_product_not_negative((1 as real) - u, m);
    lemma_product_distributes(1 as real, u, m);
    lemma_product_of_unit(m);
}

/// One percentile of two or more samples.
proof fn lemma_percentile_value<T, A: Arithmetic<T>>(
    ops: &A,
    val: spec_fn(T) -> real,
    data: Seq<T>,
    keys: Seq<u64>,
    p: T,
    v: T,
)
    requires
        is_exact(ops, val),
        keys_follow(ops, val),
        rounds_exactly(ops, val),
        2 <= data.len() <= usize::MAX,
        keyed(ops, data, keys),
        is_percentile_by(ops, data, keys, p, v),
    ensures
        is_percentile_of(val, data, val(p), val(v)),
{
    let n = data.len() as int;
    let (r, below, above, i, j) = choose|r: T, below: usize, above: usize, i: int, j: int|
        evals(ops, position(p, n), r) && #[trigger] interpolates(
            ops,
            data,
            keys,
            r,
            below,
            above,
            i,
            j,
            v,
        );
    let hundred = whole::<T>(100);
    lemma_exact_whole(ops, val, 100);
    lemma_exact_binary(ops, val, Binary::Over, Formula::Given(p), hundred, val(p), 100 as real);
    let q = val(p) / (100 as real);
    let share = Formula::Given(p).over(hundred);
    lemma_exact_unit(ops, val, share, q);
    let last = Formula::<T>::Count((n - 1) as usize);
    assert(denotes(ops, val, last, (n - 1) as real));
    lemma_exact_product(ops, val, share.unit(), last, into_unit(q), (n - 1) as real);
    lemma_position_in_range(into_unit(q), n);
    let s = product(into_unit(q), (n - 1) as real);
    assert(val(r) == s);
    lemma_rounded(ops, val, r, Unary::Floor, below);
    lemma_rounded(ops, val, r, Unary::Ceil, above);
    assert(below < n);
    assert(above < n);
    let k = below as int;
    lemma_rank_stands(ops, val, data, keys, k, i);
    lemma_rank_stands(ops, val, data, keys, above as int, j);
    let (f, g) = (Formula::Given(data[i]), Formula::Given(data[j]));
    let (a, b) = (val(data[i]), val(data[j]));
    let part = Formula::Given(r).minus(Formula::Count(below));
    assert(denotes(ops, val, Formula::<T>::Count(below), k as real));
    lemma_exact_binary(
        ops,
        val,
        Binary::Minus,
        Formula::Given(r),
        Formula::Count(below),
        s,
        k as real,
    );
    lemma_exact_binary(ops, val, Binary::Minus, g, f, b, a);
    lemma_exact_product(ops, val, part, g.minus(f), s - k as real, b - a);
    lemma_exact_binary(
        ops,
        val,
        Binary::Plus,
        f,
        part.times(g.minus(f)),
        a,
        product(s - k as real, b - a),
    );
    assert(within(below, n) == below);
    assert(val(v) == a + product(s - k as real, b - a));
    if s == k as real {
        lemma_product_of_unit(b - a);
    } else {
        assert(above == k + 1);
    }
    assert(is_between_ranks(val, data, s, val(v), k, i, j));
}

/// A rounded number as an index.
pub proof fn lemma_rounded<T, A: Arithmetic<T>>(
    ops: &A,
    val: spec_fn(T) -> real,
    r: T,
    op: Unary,
    k: usize,
)
    requires
        rounds_exactly(ops, val),
        0 as real <= val(r) <= usize::MAX as int as real,
        indexes(ops, Formula::Given(r).apply(op), k),
    ensures
        op == Unary::Floor ==> k as int as real <= val(r) < (k + 1) as real,
        op == Unary::Ceil ==> ((k - 1) as real) < val(r) <= k as int as real,
{
    let f = Formula::Given(r).apply(op);
    let v = choose|v: T| evals(ops, f, v) && #[trigger] index_answers(ops, v, k);
    let x = choose|x: T|
        evals(ops, Formula::Given(r), x) && #[trigger] unary_answers(ops, op, x, v);
    assert(x == r);
}

/// Percentiles of numbers are those of the numbers that they stand for.
pub proof fn lemma_percentiles_are_exact<T, A: Arithmetic<T>>(
    ops: &A,
    val: spec_fn(T) -> real,
    data: Seq<T>,
    lo_p: T,
    hi_p: T,
    low: T,
    high: T,
)
    requires
        is_exact(ops, val),
        keys_follow(ops, val),
        rounds_exactly(ops, val),
        are_numbers(ops, data),
        1 <= data.len() <= usize::MAX,
        are_percentiles(ops, data, lo_p, hi_p, low, high),
    ensures
        is_percentile_of(val, data, val(lo_p), val(low)),
        is_percentile_of(val, data, val(hi_p), val(high)),
{
    let n = data.len() as int;
    let flags = choose|flags: Seq<bool>| #[trigger]
        numbers(ops, data, flags) && percentiles_of_numbers(
            ops,
            picked(data, flags),
            lo_p,
            hi_p,
            low,
            high,
        );
    lemma_all_picked(ops, data, flags, n);
    assert(data.take(n) =~= data);
    if n == 1 {
        lemma_product_of_unit(into_unit(val(lo_p) / (100 as real)));
        lemma_product_of_unit(into_unit(val(hi_p) / (100 as real)));
        lemma_how_many_at_most(val, data, val(data[0]), true, 1, 0);
        lemma_how_many_at_most(val, data, val(data[0]), false, 1, 0);
        assert(stands_at(val, data, 0, 0));
        assert(is_between_ranks(val, data, 0 as real, val(low), 0, 0, 0));
        assert(is_between_ranks(val, data, 0 as real, val(high), 0, 0, 0));
    } else {
        let keys = choose|keys: Seq<u64>| #[trigger]
            keyed(ops, data, keys) && is_percentile_by(ops, data, keys, lo_p, low)
                && is_percentile_by(ops, data, keys, hi_p, high);
        lemma_percentile_value(ops, val, data, keys, lo_p, low);
        lemma_percentile_value(ops, val, data, keys, hi_p, high);
    }
}

/// Percentile 0 is the least of the samples and percentile 100 the greatest.
#[verifier::spinoff_prover]
pub proof fn lemma_end_percentiles<T>(val: spec_fn(T) -> real, data: Seq<T>, p: real, v: real)
    requires
        data.len() >= 1,
        is_percentile_of(val, data, p, v),
        p <= 0 as real || p >= 100 as real,
    ensures
        p <= 0 as real ==> forall|i: int| 0 <= i < data.len() ==> v <= val(#[trigger] data[i]),
        p >= 100 as real ==> forall|i: int| 0 <= i < data.len() ==> val(#[trigger] data[i]) <= v,
        exists|i: int| 0 <= i < data.len() && val(#[trigger] data[i]) == v,
{
    let m = (data.len() - 1) as real;
    let u = into_unit(p / (100 as real));
    lemma_hundredths(p);
    lemma_product_of_unit(m);
    let r = product(u, m);
    let (k, i, j) = choose|k: int, i: int, j: int| #[trigger]
        is_between_ranks(val, data, r, v, k, i, j);
    if p <= 0 as real {
        lemma_whole_position(k, 0);
        assert forall|l: int| 0 <= l < data.len() implies v <= val(#[trigger] data[l]) by {
            lemma_ends_of_order(val, data, k, i, l);
        }
    } else {
        lemma_whole_position(k, data.len() - 1);
        assert forall|l: int| 0 <= l < data.len() implies val(#[trigger] data[l]) <= v by {
            lemma_ends_of_order(val, data, k, i, l);
        }
    }
}

/// A whole position is its own rank.
#[verifier::spinoff_prover]
proof fn lemma_whole_position(k: int, m: int)
    requires
        k as real <= m as real,
        (m as real) < (k + 1) as real,
    ensures
        k == m,
{
}

/// A percentage at or beyond the ends of the range.
proof fn lemma_hundredths(p: real)
    ensures
        p <= 0 as real ==> into_unit(p / (100 as real)) == 0 as real,
        p >= 100 as real ==> into_unit(p / (100 as real)) == 1 as real,
{
}

} // verus!
