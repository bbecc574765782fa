//! There is one median and one percentile of given samples.

use super::answers::{is_deterministic, lemma_one_index, lemma_one_value};
use crate::arith::{Arithmetic, Formula, Unary, evals, whole};
use crate::plane::picked;
use crate::stats::{
    are_percentiles, count_before, has_rank, interpolates, is_median, is_median_by,
    is_percentile_by, keyed, numbers, percentiles_of_numbers, position, precedes, within,
};
use vstd::prelude::*;

verus! {

/// More samples come before a sample than before one that it follows.
proof fn lemma_count_grows(keys: Seq<u64>, i: int, j: int, n: int)
    requires
        precedes(keys, i, j),
        0 <= i,
        0 <= n,
    ensures
        count_before(keys, i, n) + (if i < n {
            1nat
        } else {
            0nat
        }) <= count_before(keys, j, n),
    decreases n,
{
    if n > 0 {
        lemma_count_grows(keys, i, j, n - 1);
    }
}

/// One sample has a given rank.
pub proof fn lemma_one_rank(keys: Seq<u64>, k: int, i: int, j: int)
    requires
        has_rank(keys, k, i),
        has_rank(keys, k, j),
    ensures
        i == j,
{
    let n = keys.len() as int;
    if i != j {
        if precedes(keys, i, j) {
            lemma_count_grows(keys, i, j, n);
        } else {
            lemma_count_grows(keys, j, i, n);
        }
    }
}

/// Samples have one sequence of keys.
proof fn lemma_one_keying<T, A: Arithmetic<T>>(ops: &A, data: Seq<T>, s: Seq<u64>, t: Seq<u64>)
    requires
        is_deterministic(ops),
        keyed(ops, data, s),
        keyed(ops, data, t),
    ensures
        s == t,
{
    assert forall|i: int| 0 <= i < s.len() implies #[trigger] s[i] == t[i] by {
        assert(call_ensures(A::order_key, (ops, data[i]), s[i]));
        assert(call_ensures(A::order_key, (ops, data[i]), t[i]));
    }
    assert(s =~= t);
}

/// Samples have one median.
pub proof fn lemma_one_median<T, A: Arithmetic<T>>(ops: &A, data: Seq<T>, u: T, v: T)
    requires
        is_deterministic(ops),
        is_median(ops, data, u),
        is_median(ops, data, v),
    ensures
        u == v,
{
    if data.len() == 0 {
        lemma_one_value(ops, whole(0), u, v);
    } else {
        let n = data.len() as int;
        let (keys, lo, hi) = choose|keys: Seq<u64>, lo: int, hi: int| #[trigger]
            is_median_by(ops, data, keys, lo, hi, u);
        let (others, low, high) = choose|keys: Seq<u64>, lo: int, hi: int| #[trigger]
            is_median_by(ops, data, keys, lo, hi, v);
        lemma_one_keying(ops, data, keys, others);
        lemma_one_rank(keys, n / 2, hi, high);
        if n % 2 != 1 {
            lemma_one_rank(keys, n / 2 - 1, lo, low);
            lemma_one_value(
                ops,
                Formula::Ratio(1, 2).times(
                    Formula::Given(data[lo]).plus(Formula::Given(data[hi])),
                ),
                u,
                v,
            );
        }
    }
}

/// Samples have one percentile.
proof fn lemma_one_percentile<T, A: Arithmetic<T>>(
    ops: &A,
    data: Seq<T>,
    keys: Seq<u64>,
    p: T,
    u: T,
    v: T,
)
    requires
        is_deterministic(ops),
        is_percentile_by(ops, data, keys, p, u),
        is_percentile_by(ops, data, keys, p, v),
    ensures
        u == v,
{
    let n = data.len() as int;
    let (r, below, above, i, j) = choose|r: T, below: usize, above: usize, i: int, j: int|
        evals(ops, position(p, n), r) && #[trigger] interpolates(
            ops,
            data,
            keys,
            r,
            below,
            above,
            i,
            j,
            u,
        );
    let (s, lower, upper, k, l) = choose|r: T, below: usize, above: usize, i: int, j: int|
        evals(ops, position(p, n), r) && #[trigger] interpolates(
            ops,
            data,
            keys,
            r,
            below,
            above,
            i,
            j,
            v,
        );
    lemma_one_value(ops, position(p, n), r, s);
    lemma_one_index(ops, Formula::Given(r).apply(Unary::Floor), below, lower);
    lemma_one_index(ops, Formula::Given(r).apply(Unary::Ceil), above, upper);
    lemma_one_rank(keys, within(below, n) as int, i, k);
    lemma_one_rank(keys, within(above, n) as int, j, l);
    lemma_one_value(
        ops,
        Formula::Given(data[i]).plus(
            Formula::Given(r).minus(Formula::Count(within(below, n))).times(
                Formula::Given(data[j]).minus(Formula::Given(data[i])),
            ),
        ),
        u,
        v,
    );
}

/// Samples have one pair of percentiles.
pub proof fn lemma_one_percentile_pair<T, A: Arithmetic<T>>(
    ops: &A,
    data: Seq<T>,
    lo_p: T,
    hi_p: T,
    low: T,
    high: T,
    lower: T,
    higher: T,
)
    requires
        is_deterministic(ops),
        are_percentiles(ops, data, lo_p, hi_p, low, high),
        are_percentiles(ops, data, lo_p, hi_p, lower, higher),
    ensures
        low == lower,
        high == higher,
{
    let flags = choose|flags: Seq<bool>| #[trigger]
        numbers(ops, data, flags) && percentiles_of_numbers(
            ops,
            picked(data, flags),
            lo_p,
            hi_p,
            low,
            high,
        );
    let others = choose|flags: Seq<bool>| #[trigger]
        numbers(ops, data, flags) && percentiles_of_numbers(
            ops,
            picked(data, flags),
            lo_p,
            hi_p,
            lower,
            higher,
        );
    assert forall|i: int| 0 <= i < flags.len() implies #[trigger] flags[i] == others[i] by {
        assert(call_ensures(A::is_nan, (ops, data[i]), !flags[i]));
        assert(call_ensures(A::is_nan, (ops, data[i]), !others[i]));
    }
    assert(flags =~= others);
    let kept = picked(data, flags);
    if kept.len() == 0 {
        lemma_one_value(ops, whole(0), low, lower);
        lemma_one_value(ops, whole(0), high, higher);
    } else if kept.len() > 1 {
        let keys = choose|keys: Seq<u64>| #[trigger]
            keyed(ops, kept, keys) && is_percentile_by(ops, kept, keys, lo_p, low)
                && is_percentile_by(ops, kept, keys, hi_p, high);
        let same = choose|keys: Seq<u64>| #[trigger]
            keyed(ops, kept, keys) && is_percentile_by(ops, kept, keys, lo_p, lower)
                && is_percentile_by(ops, kept, keys, hi_p, higher);
        lemma_one_keying(ops, kept, keys, same);
        lemma_one_percentile(ops, kept, keys, lo_p, low, lower);
        lemma_one_percentile(ops, kept, keys, hi_p, high, higher);
    }
}

} // verus!
