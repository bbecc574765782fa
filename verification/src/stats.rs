//! Order statistics: medians that average the two middle samples of an even
//! count, and percentiles that interpolate between neighbouring samples.
//!
//! Samples are ordered by the whole-number keys that the arithmetic gives
//! them, and each statistic is found by selection rather than a full sort.

use crate::arith::{Arithmetic, Formula, Sample, Traced, Unary, evals, indexes, whole};
use crate::plane::{pick, picked};
use vstd::multiset::Multiset;
use vstd::prelude::*;

verus! {

/// Sample `i` comes before sample `j`: by key, then by place.
pub open spec fn precedes(keys: Seq<u64>, i: int, j: int) -> bool {
    keys[i] < keys[j] || (keys[i] == keys[j] && i < j)
}

/// How many of the first `n` samples come before sample `i`.
pub open spec fn count_before(keys: Seq<u64>, i: int, n: int) -> nat
    decreases n,
{
    if n <= 0 {
        0
    } else {
        count_before(keys, i, n - 1) + if precedes(keys, n - 1, i) {
            1nat
        } else {
            0nat
        }
    }
}

/// Sample `i` is the order statistic of rank `k`: exactly `k` samples come
/// before it.
pub open spec fn has_rank(keys: Seq<u64>, k: int, i: int) -> bool {
    0 <= i < keys.len() && count_before(keys, i, keys.len() as int) == k
}

/// `keys` are the order keys that the arithmetic gave for the samples.
pub open spec fn keyed<T, A: Arithmetic<T>>(ops: &A, data: Seq<T>, keys: Seq<u64>) -> bool {
    &&& keys.len() == data.len()
    &&& forall|i: int|
        0 <= i < data.len() ==> call_ensures(A::order_key, (ops, data[i]), #[trigger] keys[i])
}

/// `r` is the median of the samples, with these keys and these middle samples.
pub open spec fn is_median_by<T, A: Arithmetic<T>>(
    ops: &A,
    data: Seq<T>,
    keys: Seq<u64>,
    lo: int,
    hi: int,
    r: T,
) -> bool {
    let n = data.len() as int;
    &&& keyed(ops, data, keys)
    &&& has_rank(keys, n / 2, hi)
    &&& if n % 2 == 1 {
        r == data[hi]
    } else {
        &&& has_rank(keys, n / 2 - 1, lo)
        &&& evals(
            ops,
            Formula::Ratio(1, 2).times(Formula::Given(data[lo]).plus(Formula::Given(data[hi]))),
            r,
        )
    }
}

/// `r` is the median of the samples: the middle one of an odd count, the mean
/// of the two middle ones of an even count, zero of none.
pub open spec fn is_median<T, A: Arithmetic<T>>(ops: &A, data: Seq<T>, r: T) -> bool {
    if data.len() == 0 {
        evals(ops, whole(0), r)
    } else {
        exists|keys: Seq<u64>, lo: int, hi: int| #[trigger]
            is_median_by(ops, data, keys, lo, hi, r)
    }
}

/// Where percentile `p` falls among `n` samples in order.
pub open spec fn position<T>(p: T, n: int) -> Formula<T> {
    Formula::Given(p).over(whole(100)).unit().times(Formula::Count((n - 1) as usize))
}

/// An index that is limited to the samples there are.
pub open spec fn within(k: usize, n: int) -> usize {
    if k < n {
        k
    } else {
        (n - 1) as usize
    }
}

/// `v` interpolates, at position `r`, between the samples of the whole ranks
/// around it.
pub open spec fn interpolates<T, A: Arithmetic<T>>(
    ops: &A,
    data: Seq<T>,
    keys: Seq<u64>,
    r: T,
    below: usize,
    above: usize,
    i: int,
    j: int,
    v: T,
) -> bool {
    let n = data.len() as int;
    &&& indexes(ops, Formula::Given(r).apply(Unary::Floor), below)
    &&& indexes(ops, Formula::Given(r).apply(Unary::Ceil), above)
    &&& has_rank(keys, within(below, n) as int, i)
    &&& has_rank(keys, within(above, n) as int, j)
    &&& evals(
        ops,
        Formula::Given(data[i]).plus(
            Formula::Given(r).minus(Formula::Count(within(below, n))).times(
                Formula::Given(data[j]).minus(Formula::Given(data[i])),
            ),
        ),
        v,
    )
}

/// `v` is percentile `p` of two or more samples with these keys.
pub open spec fn is_percentile_by<T, A: Arithmetic<T>>(
    ops: &A,
    data: Seq<T>,
    keys: Seq<u64>,
    p: T,
    v: T,
) -> bool {
    exists|r: T, below: usize, above: usize, i: int, j: int|
        evals(ops, position(p, data.len() as int), r) && #[trigger] interpolates(
            ops,
            data,
            keys,
            r,
            below,
            above,
            i,
            j,
            v,
        )
}

/// The flags tell the samples that are numbers.
pub open spec fn numbers<T, A: Arithmetic<T>>(ops: &A, data: Seq<T>, flags: Seq<bool>) -> bool {
    &&& flags.len() == data.len()
    &&& forall|i: int|
        0 <= i < data.len() ==> call_ensures(A::is_nan, (ops, data[i]), !#[trigger] flags[i])
}

/// `low` and `high` are percentiles `lo_p` and `hi_p` of the given numbers.
pub open spec fn percentiles_of_numbers<T, A: Arithmetic<T>>(
    ops: &A,
    data: Seq<T>,
    lo_p: T,
    hi_p: T,
    low: T,
    high: T,
) -> bool {
    if data.len() == 0 {
        evals(ops, whole(0), low) && evals(ops, whole(0), high)
    } else if data.len() == 1 {
        low == data[0] && high == data[0]
    } else {
        exists|keys: Seq<u64>| #[trigger]
            keyed(ops, data, keys) && is_percentile_by(ops, data, keys, lo_p, low)
                && is_percentile_by(ops, data, keys, hi_p, high)
    }
}

/// `low` and `high` are percentiles `lo_p` and `hi_p` of the samples that are
/// numbers; the others are ignored.
pub open spec fn are_percentiles<T, A: Arithmetic<T>>(
    ops: &A,
    data: Seq<T>,
    lo_p: T,
    hi_p: T,
    low: T,
    high: T,
) -> bool {
    exists|flags: Seq<bool>| #[trigger]
        numbers(ops, data, flags) && percentiles_of_numbers(
            ops,
            picked(data, flags),
            lo_p,
            hi_p,
            low,
            high,
        )
}

/// The order of keyed places: by key, then by place.
pub open spec fn pair_before(a: (u64, usize), b: (u64, usize)) -> bool {
    a.0 < b.0 || (a.0 == b.0 && a.1 < b.1)
}

/// Reorders the pairs so that the one at `index` stands where a sort would put
/// it.
///
/// Calls `select_nth_unstable` of the standard library's slices. Trusted: the
/// pairs are the same ones, none before `index` is greater than the one there,
/// and none after it is less, in the lexicographic order of tuples.
#[verifier::external_body]
fn select_nth(pairs: &mut Vec<(u64, usize)>, index: usize)
    requires
        index < old(pairs)@.len(),
    ensures
        final(pairs)@.to_multiset() == old(pairs)@.to_multiset(),
        forall|i: int|
            0 <= i < index ==> !pair_before(
                final(pairs)@[index as int],
                #[trigger] final(pairs)@[i],
            ),
        forall|i: int|
            index < i < final(pairs)@.len() ==> !pair_before(
                #[trigger] final(pairs)@[i],
                final(pairs)@[index as int],
            ),
{
    pairs.select_nth_unstable(index);
}

/// How many items of `s` satisfy `f`.
spec fn count<X>(s: Seq<X>, f: spec_fn(X) -> bool) -> nat
    decreases s.len(),
{
    if s.len() == 0 {
        0
    } else {
        count(s.drop_last(), f) + if f(s.last()) {
            1nat
        } else {
            0nat
        }
    }
}

/// A count does not depend on the order of the items.
proof fn lemma_count_is_of_multiset<X>(s: Seq<X>, f: spec_fn(X) -> bool)
    ensures
        count(s, f) == s.to_multiset().filter(f).len(),
    decreases s.len(),
{
    broadcast use vstd::multiset::group_multiset_axioms;

    if s.len() == 0 {
        s.to_multiset_ensures();
        assert(s.to_multiset() =~= Multiset::empty());
        assert(Multiset::<X>::empty().filter(f) =~= Multiset::empty());
    } else {
        let t = s.drop_last();
        let x = s.last();
        assert(s =~= t.push(x));
        vstd::seq_lib::to_multiset_build(t, x);
        lemma_count_is_of_multiset(t, f);
        if f(x) {
            assert(s.to_multiset().filter(f) =~= t.to_multiset().filter(f).insert(x));
        } else {
            assert(s.to_multiset().filter(f) =~= t.to_multiset().filter(f));
        }
    }
}

/// Where exactly the first `k` items satisfy `f`, the count is `k`.
proof fn lemma_count_of_prefix<X>(s: Seq<X>, f: spec_fn(X) -> bool, k: int)
    requires
        0 <= k <= s.len(),
        forall|i: int| 0 <= i < k ==> f(#[trigger] s[i]),
        forall|i: int| k <= i < s.len() ==> !f(#[trigger] s[i]),
    ensures
        count(s, f) == k,
    decreases s.len(),
{
    if s.len() > 0 {
        let t = s.drop_last();
        if k == s.len() {
            lemma_count_of_prefix(t, f, k - 1);
        } else {
            assert(!f(s.last()));
            lemma_count_of_prefix(t, f, k);
        }
    }
}

/// The places of the keys, paired with them.
spec fn paired(keys: Seq<u64>, n: int) -> Seq<(u64, usize)> {
    Seq::new(n as nat, |i: int| (keys[i], i as usize))
}

/// Counting the pairs before one is counting the samples before it.
proof fn lemma_count_pairs(keys: Seq<u64>, i: int, n: int)
    requires
        0 <= i < keys.len() <= usize::MAX,
        0 <= n <= keys.len(),
    ensures
        count(paired(keys, n), |q: (u64, usize)| pair_before(q, (keys[i], i as usize)))
            == count_before(keys, i, n),
    decreases n,
{
    if n > 0 {
        lemma_count_pairs(keys, i, n - 1);
        assert(paired(keys, n).drop_last() =~= paired(keys, n - 1));
    }
}

/// A pair that selection put at `k` has rank `k`.
proof fn lemma_selected(keys: Seq<u64>, pairs: Seq<(u64, usize)>, k: int)
    requires
        keys.len() <= usize::MAX,
        0 <= k < pairs.len(),
        pairs.to_multiset() == paired(keys, keys.len() as int).to_multiset(),
        forall|i: int| 0 <= i < k ==> !pair_before(pairs[k], #[trigger] pairs[i]),
        forall|i: int| k < i < pairs.len() ==> !pair_before(#[trigger] pairs[i], pairs[k]),
    ensures
        pairs[k].1 < keys.len(),
        has_rank(keys, k, pairs[k].1 as int),
{
    let all = paired(keys, keys.len() as int);
    let p = pairs[k];
    all.to_multiset_ensures();
    pairs.to_multiset_ensures();
    assert(pairs.contains(p));
    assert(pairs.to_multiset().count(p) > 0);
    assert(all.to_multiset().count(p) > 0);
    assert(all.contains(p));
    let i = p.1 as int;
    assert(p == (keys[i], i as usize));
    let f = |q: (u64, usize)| pair_before(q, p);
    assert(all.no_duplicates());
    all.lemma_multiset_has_no_duplicates();
    pairs.lemma_multiset_has_no_duplicates_conv();
    assert forall|j: int| 0 <= j < k implies f(#[trigger] pairs[j]) by {
        assert(pairs[j] != pairs[k]);
    }
    lemma_count_of_prefix(pairs, f, k);
    lemma_count_is_of_multiset(pairs, f);
    lemma_count_is_of_multiset(all, f);
    lemma_count_pairs(keys, i, keys.len() as int);
    assert(f =~= |q: (u64, usize)| pair_before(q, (keys[i], i as usize)));
}

/// The places of the order statistics at the given ranks.
pub fn order_stats(keys: &Vec<u64>, ranks: &Vec<usize>) -> (out: Vec<usize>)
    requires
        forall|j: int| 0 <= j < ranks@.len() ==> #[trigger] ranks@[j] < keys@.len(),
    ensures
        out@.len() == ranks@.len(),
        forall|j: int|
            0 <= j < out@.len() ==> has_rank(keys@, ranks@[j] as int, #[trigger] out@[j] as int),
{
    let n = keys.len();
    let mut pairs: Vec<(u64, usize)> = Vec::with_capacity(n);
    let mut i: usize = 0;
    while i < n
        invariant
            n == keys@.len(),
            i <= n,
            pairs@ =~= paired(keys@, i as int),
        decreases n - i,
    {
        pairs.push((keys[i], i));
        i += 1;
    }
    let mut out: Vec<usize> = Vec::with_capacity(ranks.len());
    let mut j: usize = 0;
    while j < ranks.len()
        invariant
            n == keys@.len(),
            forall|k: int| 0 <= k < ranks@.len() ==> #[trigger] ranks@[k] < n,
            j <= ranks@.len(),
            pairs@.len() == n,
            pairs@.to_multiset() == paired(keys@, n as int).to_multiset(),
            out@.len() == j,
            forall|k: int|
                0 <= k < j ==> has_rank(keys@, ranks@[k] as int, #[trigger] out@[k] as int),
        decreases ranks@.len() - j,
    {
        let r = ranks[j];
        let ghost before = pairs@;
        select_nth(&mut pairs, r);
        proof {
            pairs@.to_multiset_ensures();
            before.to_multiset_ensures();
            lemma_selected(keys@, pairs@, r as int);
        }
        out.push(pairs[r].1);
        j += 1;
    }
    out
}

/// The order keys of the samples.
pub fn order_keys<T: Sample, A: Arithmetic<T>>(ops: &A, data: &[T]) -> (keys: Vec<u64>)
    ensures
        keyed(ops, data@, keys@),
{
    let mut keys: Vec<u64> = Vec::with_capacity(data.len());
    let mut i: usize = 0;
    while i < data.len()
        invariant
            i <= data@.len(),
            keys@.len() == i,
            forall|k: int|
                0 <= k < i ==> call_ensures(A::order_key, (ops, data@[k]), #[trigger] keys@[k]),
        decreases data@.len() - i,
    {
        let key = ops.order_key(data[i]);
        keys.push(key);
        i += 1;
    }
    keys
}

/// Median of the samples; zero of none.
pub fn median_of<T: Sample, A: Arithmetic<T>>(ops: &A, data: &[T]) -> (r: T)
    ensures
        is_median(ops, data@, r),
{
    let n = data.len();
    if n == 0 {
        return ops.ratio(0, 1);
    }
    let keys = order_keys(ops, data);
    let mid = n / 2;
    let mut ranks: Vec<usize> = Vec::new();
    ranks.push(mid);
    if n % 2 == 0 {
        ranks.push(mid - 1);
    }
    let places = order_stats(&keys, &ranks);
    let hi = places[0];
    assert(has_rank(keys@, ranks@[0] as int, places@[0] as int));
    if n % 2 == 1 {
        let r = data[hi];
        assert(is_median_by(ops, data@, keys@, 0, hi as int, r));
        r
    } else {
        let lo = places[1];
        assert(has_rank(keys@, ranks@[1] as int, places@[1] as int));
        let total = Traced::given(ops, data[lo]).plus(ops, Traced::given(ops, data[hi]));
        let r = Traced::ratio(ops, 1, 2).times(ops, total).value;
        assert(is_median_by(ops, data@, keys@, lo as int, hi as int, r));
        r
    }
}

/// One percentile of two or more samples.
fn percentile<T: Sample, A: Arithmetic<T>>(ops: &A, data: &[T], keys: &Vec<u64>, p: T) -> (v: T)
    requires
        data@.len() >= 2,
        keys@.len() == data@.len(),
    ensures
        is_percentile_by(ops, data@, keys@, p, v),
{
    let n = data.len();
    let hundredths = Traced::given(ops, p).over(ops, Traced::whole(ops, 100)).unit(ops);
    let r = hundredths.times(ops, Traced::count(ops, n - 1)).value;
    let place = Traced::given(ops, r);
    let below = place.apply(ops, Unary::Floor).to_index(ops);
    let above = place.apply(ops, Unary::Ceil).to_index(ops);
    let lower = if below < n {
        below
    } else {
        n - 1
    };
    let upper = if above < n {
        above
    } else {
        n - 1
    };
    let mut ranks: Vec<usize> = Vec::new();
    ranks.push(lower);
    ranks.push(upper);
    let places = order_stats(keys, &ranks);
    let i = places[0];
    let j = places[1];
    assert(has_rank(keys@, ranks@[0] as int, places@[0] as int));
    assert(has_rank(keys@, ranks@[1] as int, places@[1] as int));
    let from = Traced::given(ops, data[i]);
    let step = Traced::given(ops, data[j]).minus(ops, from);
    let part = place.minus(ops, Traced::count(ops, lower));
    let v = from.plus(ops, part.times(ops, step)).value;
    assert(interpolates(ops, data@, keys@, r, below, above, i as int, j as int, v));
    v
}

/// Two linearly interpolated percentiles of the samples that are numbers;
/// zeros when there are none.
pub fn percentile_pair<T: Sample, A: Arithmetic<T>>(
    ops: &A,
    data: &[T],
    lo_p: T,
    hi_p: T,
) -> (r: (T, T))
    ensures
        are_percentiles(ops, data@, lo_p, hi_p, r.0, r.1),
{
    let mut flags: Vec<bool> = Vec::with_capacity(data.len());
    let mut i: usize = 0;
    while i < data.len()
        invariant
            i <= data@.len(),
            flags@.len() == i,
            forall|k: int|
                0 <= k < i ==> call_ensures(A::is_nan, (ops, data@[k]), !#[trigger] flags@[k]),
        decreases data@.len() - i,
    {
        let nan = ops.is_nan(data[i]);
        flags.push(!nan);
        i += 1;
    }
    assert(numbers(ops, data@, flags@));
    let kept = pick(data, flags.as_slice());
    let n = kept.len();
    if n == 0 {
        return (ops.ratio(0, 1), ops.ratio(0, 1));
    }
    if n == 1 {
        return (kept[0], kept[0]);
    }
    let keys = order_keys(ops, kept.as_slice());
    let low = percentile(ops, kept.as_slice(), &keys, lo_p);
    let high = percentile(ops, kept.as_slice(), &keys, hi_p);
    (low, high)
}

} // verus!
