//! Rows and columns are treated alike by edge detection.

use super::answers::{is_deterministic, lemma_one_value};
use super::scaling::{
    all_related, is_linear, is_ordered, lemma_related_decision, lemma_related_multiple,
    lemma_related_product, lemma_related_sum,
};
use super::statistics::lemma_one_median;
use super::units::lemma_related_ends;
use crate::arith::{Arithmetic, Binary, Formula, Test, evals, whole};
use crate::autocrop::{
    AutocropParams, CropBounds, are_column_medians, are_edges, are_edges_below, are_edges_by,
    are_edges_of, are_row_medians, column_of, interior_end, interior_medians, interior_start,
    row_of,
};
use crate::frame::{Raster, channel_sum, is_luminance, luminance_at};
use crate::plane::lemma_pixel;
use crate::stats::{count_before, has_rank, is_median, is_median_by, precedes};
use vstd::prelude::*;

verus! {

/// Two samples that the order does not tell apart.
pub open spec fn alike<T, A: Arithmetic<T>>(ops: &A) -> spec_fn(T, T) -> bool {
    |x: T, y: T|
        x == y || exists|k: u64| #[trigger]
            call_ensures(A::order_key, (ops, x), k) && call_ensures(A::order_key, (ops, y), k)
}

/// A plane of `w` by `h` pixels with rows and columns exchanged.
pub open spec fn transposed_plane<T>(plane: Seq<T>, w: int, h: int) -> Seq<T> {
    Seq::new((w * h) as nat, |i: int| plane[(i % h) * w + i / h])
}

/// An image with rows and columns exchanged.
pub open spec fn transposed<T>(image: Raster<T>) -> Raster<T> {
    Raster {
        width: image.height,
        height: image.width,
        planes: Seq::new(
            image.planes.len(),
            |c: int|
                transposed_plane(image.planes[c], image.width as int, image.height as int),
        ),
    }
}

/// How many of the first `n` keys lie below `v`, or at it where `at` is set.
pub open spec fn tally(keys: Seq<u64>, v: u64, at: bool, n: int) -> nat
    decreases n,
{
    if n <= 0 {
        0
    } else {
        tally(keys, v, at, n - 1) + if keys[n - 1] < v || (at && keys[n - 1] == v) {
            1nat
        } else {
            0nat
        }
    }
}

/// The count before a place lies between the keys below its key and those up
/// to it.
pub proof fn lemma_count_and_tally(keys: Seq<u64>, i: int, n: int)
    requires
        0 <= i < keys.len(),
        n <= keys.len(),
    ensures
        tally(keys, keys[i], false, n) <= count_before(keys, i, n),
        count_before(keys, i, n) + (if i < n {
            1nat
        } else {
            0nat
        }) <= tally(keys, keys[i], true, n),
    decreases n,
{
    if n > 0 {
        lemma_count_and_tally(keys, i, n - 1);
        assert(precedes(keys, n - 1, i) ==> n - 1 != i);
    }
}

/// The keys up to one key lie below a greater one.
proof fn lemma_tally_grows(keys: Seq<u64>, v: u64, w: u64, n: int)
    requires
        v < w,
    ensures
        tally(keys, v, true, n) <= tally(keys, w, false, n),
    decreases n,
{
    if n > 0 {
        lemma_tally_grows(keys, v, w, n - 1);
    }
}

/// Keys one after another are counted one after another.
proof fn lemma_tally_of_joined(s: Seq<u64>, t: Seq<u64>, v: u64, at: bool, n: int)
    requires
        0 <= n <= s.len() + t.len(),
    ensures
        n <= s.len() ==> tally(s + t, v, at, n) == tally(s, v, at, n),
        n >= s.len() ==> tally(s + t, v, at, n) == tally(s, v, at, s.len() as int) + tally(
            t,
            v,
            at,
            n - s.len(),
        ),
    decreases n,
{
    if n > 0 {
        lemma_tally_of_joined(s, t, v, at, n - 1);
        let k = n - 1;
        if k < s.len() {
            assert((s + t)[k] == s[k]);
        } else {
            assert((s + t)[k] == t[k - s.len()]);
        }
    }
}

/// Exchanging two runs of keys does not change the key of a rank.
proof fn lemma_rank_of_exchanged(s: Seq<u64>, t: Seq<u64>, k: int, i: int, j: int)
    requires
        has_rank(s + t, k, i),
        has_rank(t + s, k, j),
    ensures
        (s + t)[i] == (t + s)[j],
{
    let (a, b) = (s + t, t + s);
    let n = a.len() as int;
    lemma_count_and_tally(a, i, n);
    lemma_count_and_tally(b, j, n);
    lemma_tally_of_joined(s, t, a[i], true, n);
    lemma_tally_of_joined(t, s, a[i], true, n);
    lemma_tally_of_joined(s, t, b[j], true, n);
    lemma_tally_of_joined(t, s, b[j], true, n);
    if a[i] < b[j] {
        lemma_tally_grows(b, a[i], b[j], n);
    } else if b[j] < a[i] {
        lemma_tally_grows(a, b[j], a[i], n);
    }
}

/// Exchanging two runs of samples leaves their median alike.
proof fn lemma_median_of_exchanged<T, A: Arithmetic<T>>(
    ops: &A,
    x: Seq<T>,
    y: Seq<T>,
    u: T,
    v: T,
)
    requires
        is_deterministic(ops),
        is_linear(ops, alike(ops)),
        is_median(ops, x + y, u),
        is_median(ops, y + x, v),
    ensures
        alike(ops)(u, v),
{
    let rel = alike::<T, A>(ops);
    let (data, other) = (x + y, y + x);
    let n = data.len() as int;
    let m = x.len() as int;
    if n == 0 {
        lemma_one_value(ops, whole(0), u, v);
    } else {
        let (keys, lo, hi) = choose|keys: Seq<u64>, lo: int, hi: int| #[trigger]
            is_median_by(ops, data, keys, lo, hi, u);
        let (others, low, high) = choose|keys: Seq<u64>, lo: int, hi: int| #[trigger]
            is_median_by(ops, other, keys, lo, hi, v);
        let (s, t) = (keys.subrange(0, m), keys.subrange(m, n));
        assert(keys =~= s + t);
        assert forall|i: int| 0 <= i < n implies #[trigger] others[i] == (t + s)[i] by {
            assert(call_ensures(A::order_key, (ops, other[i]), others[i]));
            if i < n - m {
                assert(other[i] == data[m + i]);
                assert(call_ensures(A::order_key, (ops, data[m + i]), keys[m + i]));
            } else {
                assert(other[i] == data[i - (n - m)]);
                assert(call_ensures(A::order_key, (ops, data[i - (n - m)]), keys[i - (n - m)]));
            }
        }
        assert(others =~= t + s);
        lemma_rank_of_exchanged(s, t, n / 2, hi, high);
        assert(call_ensures(A::order_key, (ops, data[hi]), keys[hi]));
        assert(call_ensures(A::order_key, (ops, other[high]), others[high]));
        assert(rel(data[hi], other[high]));
        if n % 2 != 1 {
            lemma_rank_of_exchanged(s, t, n / 2 - 1, lo, low);
            assert(call_ensures(A::order_key, (ops, data[lo]), keys[lo]));
            assert(call_ensures(A::order_key, (ops, other[low]), others[low]));
            assert(rel(data[lo], other[low]));
            let (a, b) = (Formula::Given(data[lo]), Formula::Given(data[hi]));
            let (c, d) = (Formula::Given(other[low]), Formula::Given(other[high]));
            lemma_related_sum(ops, rel, Binary::Plus, a, b, c, d);
            lemma_related_product(ops, rel, Formula::Ratio(1, 2), a.plus(b), c.plus(d));
        }
    }
}

/// The channel sums of a transposed image stand at the exchanged places.
proof fn lemma_transposed_channel_sum<T>(image: Raster<T>, x: int, y: int, n: int)
    requires
        0 <= x < image.width,
        0 <= y < image.height,
        n <= image.planes.len(),
    ensures
        channel_sum(transposed(image).planes, x * image.height + y, n) == channel_sum(
            image.planes,
            y * image.width + x,
            n,
        ),
    decreases n,
{
    if n > 0 {
        lemma_transposed_channel_sum(image, x, y, n - 1);
        let (w, h) = (image.width as int, image.height as int);
        lemma_pixel(y, x, h, w);
        assert(h * w == w * h) by (nonlinear_arith);
        assert(transposed(image).planes[n - 1][x * h + y] == image.planes[n - 1][y * w + x]);
    }
}

/// The luminance of a transposed image is the transposed luminance.
proof fn lemma_transposed_luminance<T, A: Arithmetic<T>>(
    ops: &A,
    image: Raster<T>,
    lum: Seq<T>,
    light: Seq<T>,
    x: int,
    y: int,
)
    requires
        is_deterministic(ops),
        is_luminance(ops, image, lum),
        is_luminance(ops, transposed(image), light),
        0 <= x < image.width,
        0 <= y < image.height,
    ensures
        light[x * image.height + y] == lum[y * image.width + x],
{
    let (w, h) = (image.width as int, image.height as int);
    let n = image.planes.len() as int;
    lemma_pixel(x, y, w, h);
    lemma_pixel(y, x, h, w);
    assert(h * w == w * h) by (nonlinear_arith);
    if n != 1 {
        lemma_transposed_channel_sum(image, x, y, n);
        assert(evals(ops, luminance_at(image.planes, y * w + x), lum[y * w + x]));
        assert(evals(ops, luminance_at(transposed(image).planes, x * h + y), light[x * h + y]));
        lemma_one_value(
            ops,
            luminance_at(image.planes, y * w + x),
            lum[y * w + x],
            light[x * h + y],
        );
    }
}

/// A row of the transposed luminance is a column of the luminance.
proof fn lemma_transposed_row<T, A: Arithmetic<T>>(
    ops: &A,
    image: Raster<T>,
    lum: Seq<T>,
    light: Seq<T>,
    x: int,
)
    requires
        is_deterministic(ops),
        is_luminance(ops, image, lum),
        is_luminance(ops, transposed(image), light),
        0 <= x < image.width,
    ensures
        row_of(light, image.height as int, x) == column_of(
            lum,
            image.width as int,
            image.height as int,
            x,
        ),
{
    let (w, h) = (image.width as int, image.height as int);
    assert(light.len() == h * w);
    assert(0 <= x * h && x * h + h <= h * w) by (nonlinear_arith)
        requires
            0 <= x < w,
            0 <= h,
    ;
    let (s, t) = (row_of(light, h, x), column_of(lum, w, h, x));
    assert forall|y: int| 0 <= y < h implies #[trigger] s[y] == t[y] by {
        lemma_transposed_luminance(ops, image, lum, light, x, y);
    }
    assert(s =~= t);
}

/// A column of the transposed luminance is a row of the luminance.
proof fn lemma_transposed_column<T, A: Arithmetic<T>>(
    ops: &A,
    image: Raster<T>,
    lum: Seq<T>,
    light: Seq<T>,
    y: int,
)
    requires
        is_deterministic(ops),
        is_luminance(ops, image, lum),
        is_luminance(ops, transposed(image), light),
        0 <= y < image.height,
    ensures
        column_of(light, image.height as int, image.width as int, y) == row_of(
            lum,
            image.width as int,
            y,
        ),
{
    let (w, h) = (image.width as int, image.height as int);
    assert(lum.len() == w * h);
    assert(0 <= y * w && y * w + w <= w * h) by (nonlinear_arith)
        requires
            0 <= y < h,
            0 <= w,
    ;
    let (s, t) = (column_of(light, h, w, y), row_of(lum, w, y));
    assert forall|x: int| 0 <= x < w implies #[trigger] s[x] == t[x] by {
        lemma_transposed_luminance(ops, image, lum, light, x, y);
    }
    assert(s =~= t);
}

/// Transposing exchanges the row medians and the column medians.
proof fn lemma_transposed_lines<T, A: Arithmetic<T>>(
    ops: &A,
    image: Raster<T>,
    lum: Seq<T>,
    light: Seq<T>,
    rows: Seq<T>,
    columns: Seq<T>,
    cols: Seq<T>,
    lines: Seq<T>,
)
    requires
        is_deterministic(ops),
        is_luminance(ops, image, lum),
        is_luminance(ops, transposed(image), light),
        are_row_medians(ops, lum, image.width as int, image.height as int, rows),
        are_column_medians(ops, lum, image.width as int, image.height as int, cols),
        are_row_medians(ops, light, image.height as int, image.width as int, lines),
        are_column_medians(ops, light, image.height as int, image.width as int, columns),
    ensures
        lines == cols,
        columns == rows,
{
    let (w, h) = (image.width as int, image.height as int);
    assert forall|x: int| 0 <= x < w implies #[trigger] lines[x] == cols[x] by {
        lemma_transposed_row(ops, image, lum, light, x);
        lemma_one_median(ops, column_of(lum, w, h, x), lines[x], cols[x]);
    }
    assert(lines =~= cols);
    assert forall|y: int| 0 <= y < h implies #[trigger] columns[y] == rows[y] by {
        lemma_transposed_column(ops, image, lum, light, y);
        lemma_one_median(ops, row_of(lum, w, y), columns[y], rows[y]);
    }
    assert(columns =~= rows);
}

/// Exchanged row and column medians show the exchanged edges.
proof fn lemma_edges_of_exchanged<T, A: Arithmetic<T>>(
    ops: &A,
    params: AutocropParams<T>,
    rows: Seq<T>,
    cols: Seq<T>,
    a: CropBounds,
    b: CropBounds,
)
    requires
        is_deterministic(ops),
        is_linear(ops, alike(ops)),
        is_ordered(ops, alike(ops)),
        are_edges_of(ops, params, rows, cols, a),
        are_edges_of(ops, params, cols, rows, b),
    ensures
        b == (a.2, a.3, a.0, a.1),
{
    let rel = alike::<T, A>(ops);
    let (w, h) = (cols.len() as int, rows.len() as int);
    if rows.len() >= 2 && cols.len() >= 2 {
        let (m, none, dark, found) = choose|m: T, none: bool, dark: T, found: CropBounds| #[trigger]
            are_edges_below(ops, params, rows, cols, m, none, dark, found, a);
        let (l, empty, dim, seen) = choose|m: T, none: bool, dark: T, found: CropBounds| #[trigger]
            are_edges_below(ops, params, cols, rows, m, none, dark, found, b);
        let s = rows.subrange(interior_start(h), interior_end(h));
        let t = cols.subrange(interior_start(w), interior_end(w));
        assert(interior_medians(rows, cols) == s + t);
        assert(interior_medians(cols, rows) == t + s);
        lemma_median_of_exchanged(ops, s, t, m, l);
        lemma_related_decision(
            ops,
            rel,
            Test::LessOrEqual,
            Formula::Given(m),
            whole(0),
            none,
            Formula::Given(l),
            whole(0),
            empty,
        );
        if !none {
            lemma_related_multiple(
                ops,
                rel,
                Binary::Times,
                Formula::Given(m),
                Formula::Given(l),
                Formula::Given(params.threshold),
            );
            assert(rel(dark, dim));
            assert(all_related(rel, rows, rows));
            assert(all_related(rel, cols, cols));
            lemma_related_ends(
                ops,
                rel,
                params,
                rows,
                dark,
                (found.0, found.1),
                rows,
                dim,
                (seen.2, seen.3),
            );
            lemma_related_ends(
                ops,
                rel,
                params,
                cols,
                dark,
                (found.2, found.3),
                cols,
                dim,
                (seen.0, seen.1),
            );
        }
    }
}

/// The edges of a transposed image are the exchanged edges: rows and columns
/// are judged against one interior median by one rule. Samples that the order
/// does not tell apart, such as zeros of either sign, have to be alike to the
/// arithmetic too.
pub proof fn lemma_edges_of_transposed<T, A: Arithmetic<T>>(
    ops: &A,
    params: AutocropParams<T>,
    image: Raster<T>,
    a: CropBounds,
    b: CropBounds,
)
    requires
        is_deterministic(ops),
        is_linear(ops, alike(ops)),
        is_ordered(ops, alike(ops)),
        are_edges(ops, params, image, a),
        are_edges(ops, params, transposed(image), b),
    ensures
        b == (a.2, a.3, a.0, a.1),
{
    let (lum, rows, cols) = choose|lum: Seq<T>, rows: Seq<T>, cols: Seq<T>| #[trigger]
        are_edges_by(ops, params, image, lum, rows, cols, a);
    let (light, lines, columns) = choose|lum: Seq<T>, rows: Seq<T>, cols: Seq<T>| #[trigger]
        are_edges_by(ops, params, transposed(image), lum, rows, cols, b);
    lemma_transposed_lines(ops, image, lum, light, rows, columns, cols, lines);
    lemma_edges_of_exchanged(ops, params, rows, cols, a, b);
}

} // verus!
